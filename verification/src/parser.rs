//! The markup parser: a recursive-descent parser turning tagged text into
//! the document tree, with attribute maps of unique keys. Positions count
//! characters.

use vstd::prelude::*;

use crate::css_parser::{lemma_ws_end_here, spec_space_char, step_to, ws_end};
use crate::dom::{node_wf, AttributeMap, Node, NodeType};
use crate::PipelineError;

verus! {

/// A character that may stand in a tag or attribute name.
pub open spec fn spec_name_char(c: char) -> bool {
    ('a' <= c && c <= 'z') || ('A' <= c && c <= 'Z') || ('0' <= c && c <= '9')
}

/// Where the maximal run of name characters starting at `p` ends.
pub open spec fn name_end(s: Seq<char>, p: int) -> int
    decreases s.len() - p,
{
    if p < 0 || p >= s.len() || !spec_name_char(s[p]) {
        p
    } else {
        name_end(s, p + 1)
    }
}

pub proof fn lemma_name_end_bounds(s: Seq<char>, p: int)
    requires
        0 <= p <= s.len(),
    ensures
        p <= name_end(s, p) <= s.len(),
    decreases s.len() - p,
{
    if p < s.len() && spec_name_char(s[p]) {
        lemma_name_end_bounds(s, p + 1);
    }
}

pub proof fn lemma_name_end_here(s: Seq<char>, p0: int, p: int)
    requires
        0 <= p0 <= p <= s.len(),
        forall|j: int| p0 <= j < p ==> spec_name_char(#[trigger] s[j]),
        p == s.len() || !spec_name_char(s[p]),
    ensures
        name_end(s, p0) == p,
    decreases p - p0,
{
    if p0 < p {
        lemma_name_end_here(s, p0 + 1, p);
    }
}

/// Where the text run starting at `p` ends: at the next tag marker or
/// the end of the input.
pub open spec fn text_end(s: Seq<char>, p: int) -> int
    decreases s.len() - p,
{
    if p < 0 || p >= s.len() || s[p] == '<' {
        p
    } else {
        text_end(s, p + 1)
    }
}

pub proof fn lemma_text_end_here(s: Seq<char>, p0: int, p: int)
    requires
        0 <= p0 <= p <= s.len(),
        forall|j: int| p0 <= j < p ==> #[trigger] s[j] != '<',
        p == s.len() || s[p] == '<',
    ensures
        text_end(s, p0) == p,
    decreases p - p0,
{
    if p0 < p {
        lemma_text_end_here(s, p0 + 1, p);
    }
}

/// Where the first occurrence of the quote `q` at or after `p` stands,
/// or the end of the input when there is none.
pub open spec fn quote_end(s: Seq<char>, p: int, q: char) -> int
    decreases s.len() - p,
{
    if p < 0 || p >= s.len() {
        s.len() as int
    } else if s[p] == q {
        p
    } else {
        quote_end(s, p + 1, q)
    }
}

pub proof fn lemma_quote_end_here(s: Seq<char>, p0: int, p: int, q: char)
    requires
        0 <= p0 <= p <= s.len(),
        forall|j: int| p0 <= j < p ==> #[trigger] s[j] != q,
        p == s.len() || s[p] == q,
    ensures
        quote_end(s, p0, q) == p,
    decreases p - p0,
{
    if p0 < p {
        lemma_quote_end_here(s, p0 + 1, p, q);
    }
}

pub proof fn lemma_quote_end_bounds(s: Seq<char>, p: int, q: char)
    requires
        0 <= p <= s.len(),
    ensures
        p <= quote_end(s, p, q) <= s.len(),
    decreases s.len() - p,
{
    if p < s.len() && s[p] != q {
        lemma_quote_end_bounds(s, p + 1, q);
    }
}

/// A guarded position: `q` where it does not move backward and stays
/// inside the text, `p` itself otherwise; on well-formed positions it
/// equals `q`.
pub open spec fn hold_at(p: int, q: int, len: int) -> int {
    if p <= q && q <= len {
        q
    } else {
        p
    }
}

/// The attribute shape `name="value"` at position `p` is well formed.
pub open spec fn attr_shape(s: Seq<char>, p: int) -> bool {
    let p1 = name_end(s, p);
    &&& p1 < s.len() && s[p1] == '='
    &&& p1 + 1 < s.len() && (s[p1 + 1] == '"' || s[p1 + 1] == '\'')
    &&& quote_end(s, p1 + 2, s[p1 + 1]) < s.len()
}

/// The attributes of an opening tag from position `p` up to the closing
/// angle bracket, threading the map gathered so far: each well-formed
/// `name="value"` pair is inserted in order, so a repeated name keeps the
/// later value; `None` on a malformed pair or a missing bracket.
pub open spec fn ps_attributes(s: Seq<char>, p: int, acc: Map<Seq<char>, Seq<char>>) -> Option<
    (Map<Seq<char>, Seq<char>>, int),
>
    decreases s.len() - p,
{
    let q = hold_at(p, ws_end(s, p), s.len() as int);
    if q >= s.len() {
        None
    } else if s[q] == '>' {
        Some((acc, q))
    } else if !attr_shape(s, q) {
        None
    } else {
        let p1 = name_end(s, q);
        let ce = quote_end(s, p1 + 2, s[p1 + 1]);
        ps_attributes(
            s,
            step_to(p, ce + 1, s.len() as int),
            acc.insert(s.subrange(q, p1), s.subrange(p1 + 2, ce)),
        )
    }
}

/// Ghost mirror of a document node: a text run, or an element with its
/// tag and attribute map.
#[verifier::ext_equal]
pub enum GNodeKind {
    Text(Seq<char>),
    Element(Seq<char>, Map<Seq<char>, Seq<char>>),
}

/// Ghost mirror of a document tree.
#[verifier::ext_equal]
pub struct GNode {
    pub kind: GNodeKind,
    pub children: Seq<GNode>,
}

/// The abstract value of a document node.
pub open spec fn node_view(n: Node) -> GNode
    decreases n,
{
    GNode {
        kind: match n.node_type {
            NodeType::Text(t) => GNodeKind::Text(t@),
            NodeType::Element(e) => GNodeKind::Element(
                e.tag_name@,
                e.attributes@.map_values(|v: String| v@),
            ),
        },
        children: Seq::new(
            n.children@.len(),
            |i: int|
                if 0 <= i < n.children@.len() {
                    node_view(n.children@[i])
                } else {
                    arbitrary()
                },
        ),
    }
}

/// The abstract values of a run of document nodes.
pub open spec fn nodes_views(ns: Seq<Node>) -> Seq<GNode> {
    Seq::new(
        ns.len(),
        |i: int|
            if 0 <= i < ns.len() {
                node_view(ns[i])
            } else {
                arbitrary()
            },
    )
}

/// Whether a closing-tag marker stands at position `p`.
pub open spec fn closing_at(s: Seq<char>, p: int) -> bool {
    p + 1 < s.len() && s[p] == '<' && s[p + 1] == '/'
}

/// The element at position `p`: `<name attrs>`, the child nodes, and a
/// closing tag naming the same tag; `None` when any part is missing or
/// the closing tag's name differs.
pub open spec fn ps_element(s: Seq<char>, p: int) -> Option<(GNode, int)>
    decreases s.len() - p, 0int,
{
    if p < 0 || p >= s.len() || s[p] != '<' {
        None
    } else {
        let n1 = hold_at(p + 1, name_end(s, p + 1), s.len() as int);
        let tag = s.subrange(p + 1, n1);
        match ps_attributes(s, n1, Map::empty()) {
            None => None,
            Some((attrs, gt)) => {
                if gt >= s.len() || s[gt] != '>' {
                    None
                } else {
                    match ps_nodes(s, step_to(p, gt + 1, s.len() as int), Seq::empty()) {
                        None => None,
                        Some((kids, c0)) => {
                            let tlen = tag.len() as int;
                            if !(c0 < s.len() && s[c0] == '<') {
                                None
                            } else if !(c0 + 1 < s.len() && s[c0 + 1] == '/') {
                                None
                            } else if !(c0 + 2 + tlen <= s.len() && s.subrange(c0 + 2, c0 + 2 + tlen)
                                == tag) {
                                None
                            } else if !(c0 + 2 + tlen < s.len() && s[c0 + 2 + tlen] == '>') {
                                None
                            } else {
                                Some(
                                    (
                                        GNode { kind: GNodeKind::Element(tag, attrs), children: kids },
                                        c0 + 2 + tlen + 1,
                                    ),
                                )
                            }
                        },
                    }
                }
            },
        }
    }
}

/// The node at position `p`: an element after a tag marker, otherwise
/// the text run up to the next tag marker.
pub open spec fn ps_node(s: Seq<char>, p: int) -> Option<(GNode, int)>
    decreases s.len() - p, 1int,
{
    if p < 0 || p >= s.len() {
        None
    } else if s[p] == '<' {
        ps_element(s, p)
    } else {
        Some(
            (
                GNode { kind: GNodeKind::Text(s.subrange(p, text_end(s, p))), children: Seq::empty() },
                text_end(s, p),
            ),
        )
    }
}

/// Sibling nodes from position `p` until the input ends or a closing tag
/// begins, threading the nodes gathered so far.
pub open spec fn ps_nodes(s: Seq<char>, p: int, acc: Seq<GNode>) -> Option<(Seq<GNode>, int)>
    decreases s.len() - p, 2int,
{
    let q = hold_at(p, ws_end(s, p), s.len() as int);
    if q >= s.len() || closing_at(s, q) {
        Some((acc, q))
    } else {
        match ps_node(s, q) {
            None => None,
            Some((gn, e)) => ps_nodes(s, step_to(p, e, s.len() as int), acc.push(gn)),
        }
    }
}

/// The whole document grammar: the top-level nodes, a single root passed
/// through as is, any other number wrapped in a synthetic `html` element.
/// This is the reference the executable parser is held to.
pub open spec fn ps_document(s: Seq<char>) -> Option<GNode> {
    match ps_nodes(s, 0, Seq::empty()) {
        None => None,
        Some((ns, _)) => Some(
            if ns.len() == 1 {
                ns[0]
            } else {
                GNode { kind: GNodeKind::Element("html"@, Map::empty()), children: ns }
            },
        ),
    }
}

/// The recursive-descent markup parser.
pub struct Parser {
    pos: usize,
    input: Vec<char>,
}

impl Parser {
    /// The cursor never passes the end of the input.
    pub closed spec fn wf(&self) -> bool {
        self.pos <= self.input@.len()
    }

    /// The cursor position, in characters.
    pub closed spec fn pos_of(&self) -> int {
        self.pos as int
    }

    /// The whole input being parsed.
    pub closed spec fn text(&self) -> Seq<char> {
        self.input@
    }

    fn new(source: &str) -> (r: Parser)
        ensures
            r.wf(),
            r.pos_of() == 0,
            r.text() == source@,
    {
        let n = source.unicode_len();
        let mut input: Vec<char> = Vec::new();
        let mut i: usize = 0;
        while i < n
            invariant
                n == source@.len(),
                i <= n,
                input@ =~= source@.subrange(0, i as int),
            decreases n - i,
        {
            input.push(source.get_char(i));
            proof {
                assert(input@ =~= source@.subrange(0, i + 1));
            }
            i = i + 1;
        }
        proof {
            assert(input@ =~= source@);
        }
        Parser { pos: 0, input }
    }

    /// Check if the input is at the end.
    fn eof(&self) -> (r: bool)
        requires
            self.wf(),
        ensures
            r == (self.pos_of() == self.text().len()),
    {
        self.pos >= self.input.len()
    }

    /// Read the next character from the input.
    fn next_char(&self) -> (c: char)
        requires
            self.wf(),
            self.pos_of() < self.text().len(),
        ensures
            c == self.text()[self.pos_of()],
    {
        self.input[self.pos]
    }

    /// Consume a character.
    fn consume_char(&mut self) -> (c: char)
        requires
            old(self).wf(),
            old(self).pos_of() < old(self).text().len(),
        ensures
            final(self).wf(),
            final(self).text() == old(self).text(),
            final(self).pos_of() == old(self).pos_of() + 1,
            c == old(self).text()[old(self).pos_of()],
    {
        let n = self.input.len();
        let c = self.input[self.pos];
        proof {
            assert(self.pos < n);
        }
        self.pos = self.pos + 1;
        c
    }

    /// Whether the input continues with a closing-tag marker.
    fn starts_with_closing(&self) -> (r: bool)
        requires
            self.wf(),
        ensures
            r == (self.pos_of() + 1 < self.text().len() && self.text()[self.pos_of()] == '<'
                && self.text()[self.pos_of() + 1] == '/'),
    {
        let n = self.input.len();
        if n >= 2 && self.pos < n - 1 {
            self.input[self.pos] == '<' && self.input[self.pos + 1] == '/'
        } else {
            false
        }
    }

    /// If the exact character is found, move past it; otherwise the
    /// document is malformed.
    fn expect(&mut self, c: char) -> (r: Result<(), PipelineError>)
        requires
            old(self).wf(),
        ensures
            final(self).wf(),
            final(self).text() == old(self).text(),
            match r {
                Ok(_) => {
                    &&& old(self).pos_of() < old(self).text().len()
                    &&& old(self).text()[old(self).pos_of()] == c
                    &&& final(self).pos_of() == old(self).pos_of() + 1
                },
                Err(e) => {
                    &&& e == PipelineError::MalformedDocument
                    &&& !(old(self).pos_of() < old(self).text().len() && old(self).text()[old(self).pos_of()] == c)
                    &&& final(self).pos_of() == old(self).pos_of()
                },
            },
    {
        if self.eof() {
            return Err(PipelineError::MalformedDocument);
        }
        if self.next_char() == c {
            self.consume_char();
            Ok(())
        } else {
            Err(PipelineError::MalformedDocument)
        }
    }

    /// If the exact string is found, move past it; otherwise the document
    /// is malformed.
    #[verifier::loop_isolation(false)]
    fn expect_str(&mut self, s: &str) -> (r: Result<(), PipelineError>)
        requires
            old(self).wf(),
        ensures
            final(self).wf(),
            final(self).text() == old(self).text(),
            old(self).pos_of() <= final(self).pos_of(),
            match r {
                Ok(_) => {
                    &&& final(self).pos_of() == old(self).pos_of() + s@.len()
                    &&& old(self).text().subrange(old(self).pos_of(), final(self).pos_of()) == s@
                },
                Err(e) => {
                    &&& e == PipelineError::MalformedDocument
                    &&& !(old(self).pos_of() + s@.len() <= old(self).text().len() && old(
                        self,
                    ).text().subrange(old(self).pos_of(), old(self).pos_of() + s@.len()) == s@)
                },
            },
    {
        let ghost t = old(self).text();
        let ghost p0 = old(self).pos_of();
        let n = s.unicode_len();
        let mut i: usize = 0;
        while i < n
            invariant
                self.wf(),
                self.text() == old(self).text(),
                n == s@.len(),
                i <= n,
                self.pos_of() == old(self).pos_of() + i,
                old(self).text().subrange(old(self).pos_of(), self.pos_of()) == s@.subrange(
                    0,
                    i as int,
                ),
            decreases n - i,
        {
            if self.eof() {
                proof {
                    if p0 + s@.len() <= t.len() && t.subrange(p0, p0 + s@.len()) == s@ {
                        assert(p0 + i < p0 + s@.len());
                        assert(false);
                    }
                }
                return Err(PipelineError::MalformedDocument);
            }
            let c = self.consume_char();
            if c != s.get_char(i) {
                proof {
                    if p0 + s@.len() <= t.len() && t.subrange(p0, p0 + s@.len()) == s@ {
                        assert(t.subrange(p0, p0 + s@.len())[i as int] == t[p0 + i]);
                        assert(false);
                    }
                }
                return Err(PipelineError::MalformedDocument);
            }
            proof {
                assert(old(self).text().subrange(old(self).pos_of(), self.pos_of())
                    =~= s@.subrange(0, i + 1));
            }
            i = i + 1;
        }
        proof {
            assert(s@.subrange(0, n as int) =~= s@);
        }
        Ok(())
    }

    /// Consume whitespace: the cursor moves exactly to the end of the
    /// whitespace run at its position.
    fn consume_whitespace(&mut self)
        requires
            old(self).wf(),
        ensures
            final(self).wf(),
            final(self).text() == old(self).text(),
            old(self).pos_of() <= final(self).pos_of(),
            final(self).pos_of() == ws_end(old(self).text(), old(self).pos_of()),
    {
        loop
            invariant
                self.wf(),
                self.text() == old(self).text(),
                old(self).pos_of() <= self.pos_of(),
                forall|j: int|
                    old(self).pos_of() <= j < self.pos_of() ==> spec_space_char(
                        #[trigger] self.text()[j],
                    ),
            decreases self.text().len() - self.pos_of(),
        {
            if self.eof() {
                proof {
                    lemma_ws_end_here(self.text(), old(self).pos_of(), self.pos_of());
                }
                return ;
            }
            let c = self.next_char();
            if c == ' ' || c == '\t' || c == '\n' || c == '\r' {
                self.consume_char();
            } else {
                proof {
                    lemma_ws_end_here(self.text(), old(self).pos_of(), self.pos_of());
                }
                return ;
            }
        }
    }

    /// Parse a tag or attribute name: the maximal run of letters and
    /// digits at the cursor.
    fn parse_name(&mut self) -> (r: String)
        requires
            old(self).wf(),
        ensures
            final(self).wf(),
            final(self).text() == old(self).text(),
            old(self).pos_of() <= final(self).pos_of(),
            r@ == old(self).text().subrange(old(self).pos_of(), final(self).pos_of()),
            forall|j: int|
                old(self).pos_of() <= j < final(self).pos_of() ==> spec_name_char(
                    #[trigger] final(self).text()[j],
                ),
            final(self).pos_of() == final(self).text().len() || !spec_name_char(
                final(self).text()[final(self).pos_of()],
            ),
            final(self).pos_of() == name_end(old(self).text(), old(self).pos_of()),
    {
        let mut result = String::new();
        loop
            invariant
                self.wf(),
                self.text() == old(self).text(),
                old(self).pos_of() <= self.pos_of(),
                result@ == self.text().subrange(old(self).pos_of(), self.pos_of()),
                forall|j: int|
                    old(self).pos_of() <= j < self.pos_of() ==> spec_name_char(
                        #[trigger] self.text()[j],
                    ),
            decreases self.text().len() - self.pos_of(),
        {
            if self.eof() {
                proof {
                    lemma_name_end_here(self.text(), old(self).pos_of(), self.pos_of());
                }
                return result;
            }
            let c = self.next_char();
            if ('a' <= c && c <= 'z') || ('A' <= c && c <= 'Z') || ('0' <= c && c <= '9') {
                self.consume_char();
                crate::text::push_char(&mut result, c);
                proof {
                    assert(result@ =~= self.text().subrange(old(self).pos_of(), self.pos_of()));
                }
            } else {
                proof {
                    lemma_name_end_here(self.text(), old(self).pos_of(), self.pos_of());
                }
                return result;
            }
        }
    }

    /// Parse a text node: exactly the characters up to the next tag
    /// marker or the end of the input.
    #[verifier::loop_isolation(false)]
    fn parse_text(&mut self) -> (r: Node)
        requires
            old(self).wf(),
        ensures
            final(self).wf(),
            final(self).text() == old(self).text(),
            old(self).pos_of() <= final(self).pos_of(),
            node_wf(r),
            r.children@.len() == 0,
            ({
                let s = old(self).text();
                let p0 = old(self).pos_of();
                &&& r.node_type matches crate::dom::NodeType::Text(t) && t@ == s.subrange(
                    p0,
                    text_end(s, p0),
                )
                &&& final(self).pos_of() == text_end(s, p0)
            }),
            old(self).pos_of() < old(self).text().len() && old(self).text()[old(self).pos_of()]
                != '<' ==> old(self).pos_of() < final(self).pos_of(),
            final(self).pos_of() == final(self).text().len() || final(self).text()[final(self).pos_of()] == '<',
    {
        let mut content = String::new();
        loop
            invariant
                self.wf(),
                self.text() == old(self).text(),
                old(self).pos_of() <= self.pos_of(),
                content@ == self.text().subrange(old(self).pos_of(), self.pos_of()),
                forall|j: int|
                    old(self).pos_of() <= j < self.pos_of() ==> #[trigger] self.text()[j] != '<',
            decreases self.text().len() - self.pos_of(),
        {
            if self.eof() {
                proof {
                    lemma_text_end_here(self.text(), old(self).pos_of(), self.pos_of());
                }
                return Node::new_by_text(content);
            }
            let c = self.next_char();
            if c == '<' {
                proof {
                    lemma_text_end_here(self.text(), old(self).pos_of(), self.pos_of());
                }
                return Node::new_by_text(content);
            }
            self.consume_char();
            crate::text::push_char(&mut content, c);
            proof {
                assert(content@ =~= self.text().subrange(old(self).pos_of(), self.pos_of()));
            }
        }
    }

    /// Parse a quoted attribute value: exactly the characters strictly
    /// between the opening quote (single or double) and the next matching
    /// quote, both consumed. Fails exactly when the opener is missing or
    /// no matching quote follows.
    #[verifier::loop_isolation(false)]
    fn parse_attribute_value(&mut self) -> (r: Result<String, PipelineError>)
        requires
            old(self).wf(),
        ensures
            final(self).wf(),
            final(self).text() == old(self).text(),
            old(self).pos_of() <= final(self).pos_of(),
            ({
                let s = old(self).text();
                let p0 = old(self).pos_of();
                match r {
                    Ok(v) => {
                        &&& p0 < s.len() && (s[p0] == '"' || s[p0] == '\'')
                        &&& quote_end(s, p0 + 1, s[p0]) < s.len()
                        &&& v@ == s.subrange(p0 + 1, quote_end(s, p0 + 1, s[p0]))
                        &&& final(self).pos_of() == quote_end(s, p0 + 1, s[p0]) + 1
                    },
                    Err(e) => {
                        &&& e == PipelineError::MalformedDocument
                        &&& !(p0 < s.len() && (s[p0] == '"' || s[p0] == '\'') && quote_end(
                            s,
                            p0 + 1,
                            s[p0],
                        ) < s.len())
                    },
                }
            }),
    {
        let ghost s = old(self).text();
        let ghost p0 = old(self).pos_of();
        if self.eof() {
            return Err(PipelineError::MalformedDocument);
        }
        let open_quote = self.consume_char();
        if open_quote != '"' && open_quote != '\'' {
            return Err(PipelineError::MalformedDocument);
        }
        let mut value = String::new();
        loop
            invariant
                self.wf(),
                self.text() == s,
                p0 < self.pos_of(),
                value@ == s.subrange(p0 + 1, self.pos_of()),
                forall|j: int| p0 + 1 <= j < self.pos_of() ==> #[trigger] s[j] != open_quote,
            decreases self.text().len() - self.pos_of(),
        {
            if self.eof() {
                // An unterminated attribute value.
                proof {
                    lemma_quote_end_here(s, p0 + 1, self.pos_of(), open_quote);
                }
                return Err(PipelineError::MalformedDocument);
            }
            let ghost before = self.pos_of();
            let c = self.consume_char();
            if c == open_quote {
                proof {
                    lemma_quote_end_here(s, p0 + 1, before, open_quote);
                }
                return Ok(value);
            }
            crate::text::push_char(&mut value, c);
            proof {
                assert(value@ =~= s.subrange(p0 + 1, self.pos_of()));
            }
        }
    }

    /// Parse a single `name="value"` attribute: the name is the name run
    /// at the cursor, the value the characters between the quotes after
    /// the equals sign. Fails exactly when the pair is not of that shape.
    fn parse_attribute(&mut self) -> (r: Result<(String, String), PipelineError>)
        requires
            old(self).wf(),
        ensures
            final(self).wf(),
            final(self).text() == old(self).text(),
            old(self).pos_of() <= final(self).pos_of(),
            ({
                let s = old(self).text();
                let p0 = old(self).pos_of();
                let p1 = name_end(s, p0);
                match r {
                    Ok(nv) => {
                        &&& attr_shape(s, p0)
                        &&& nv.0@ == s.subrange(p0, p1)
                        &&& nv.1@ == s.subrange(p1 + 2, quote_end(s, p1 + 2, s[p1 + 1]))
                        &&& final(self).pos_of() == quote_end(s, p1 + 2, s[p1 + 1]) + 1
                        &&& old(self).pos_of() < final(self).pos_of()
                    },
                    Err(e) => {
                        &&& e == PipelineError::MalformedDocument
                        &&& !attr_shape(s, p0)
                    },
                }
            }),
    {
        let ghost s = old(self).text();
        let ghost p0 = old(self).pos_of();
        let name = self.parse_name();
        match self.expect('=') {
            Ok(_) => {},
            Err(e) => {
                return Err(e);
            },
        }
        let value = match self.parse_attribute_value() {
            Ok(v) => v,
            Err(e) => {
                return Err(e);
            },
        };
        proof {
            lemma_quote_end_bounds(s, name_end(s, p0) + 2, s[name_end(s, p0) + 1]);
        }
        Ok((name, value))
    }

    /// Parse the attributes of an opening tag, up to (and not consuming)
    /// the closing angle bracket: exactly the pairs the attribute grammar
    /// reads there, later occurrences of a name keeping the last value.
    #[verifier::loop_isolation(false)]
    fn parse_attributes(&mut self) -> (r: Result<AttributeMap, PipelineError>)
        requires
            old(self).wf(),
        ensures
            final(self).wf(),
            final(self).text() == old(self).text(),
            old(self).pos_of() <= final(self).pos_of(),
            match r {
                Ok(attrs) => {
                    &&& ps_attributes(old(self).text(), old(self).pos_of(), Map::empty()) == Some(
                        (attrs@.map_values(|v: String| v@), final(self).pos_of()),
                    )
                    &&& attrs.wf()
                    &&& final(self).pos_of() < final(self).text().len()
                    &&& final(self).text()[final(self).pos_of()] == '>'
                },
                Err(e) => {
                    &&& ps_attributes(old(self).text(), old(self).pos_of(), Map::empty()) is None
                    &&& e == PipelineError::MalformedDocument
                },
            },
    {
        let ghost s = old(self).text();
        let ghost p0 = old(self).pos_of();
        let mut attributes = AttributeMap::new();
        proof {
            assert(attributes@.map_values(|v: String| v@) =~= Map::<Seq<char>, Seq<char>>::empty());
        }
        loop
            invariant
                self.wf(),
                self.text() == s,
                p0 <= self.pos_of(),
                attributes.wf(),
                ps_attributes(s, p0, Map::empty()) == ps_attributes(
                    s,
                    self.pos_of(),
                    attributes@.map_values(|v: String| v@),
                ),
            decreases self.text().len() - self.pos_of(),
        {
            let ghost cur = self.pos_of();
            let ghost accv = attributes@.map_values(|v: String| v@);
            self.consume_whitespace();
            let ghost q = self.pos_of();
            proof {
                assert(hold_at(cur, ws_end(s, cur), s.len() as int) == q);
            }
            if self.eof() {
                proof {
                    assert(ps_attributes(s, cur, accv) is None);
                }
                return Err(PipelineError::MalformedDocument);
            }
            if self.next_char() == '>' {
                proof {
                    assert(ps_attributes(s, cur, accv) == Some((accv, q)));
                }
                return Ok(attributes);
            }
            let (name, value) = match self.parse_attribute() {
                Ok(p) => p,
                Err(e) => {
                    proof {
                        assert(ps_attributes(s, cur, accv) is None);
                    }
                    return Err(e);
                },
            };
            let ghost e = self.pos_of();
            let ghost nv = (name@, value@);
            attributes.insert(name, value);
            proof {
                assert(attributes@.map_values(|v: String| v@) =~= accv.insert(nv.0, nv.1));
                assert(step_to(cur, e, s.len() as int) == e);
                assert(ps_attributes(s, cur, accv) == ps_attributes(
                    s,
                    e,
                    accv.insert(nv.0, nv.1),
                ));
            }
        }
    }

    /// Parse a single element: opening tag with attributes, children, and
    /// the matching closing tag — exactly the element the grammar
    /// `ps_element` reads at the cursor.
    fn parse_element(&mut self) -> (r: Result<Node, PipelineError>)
        requires
            old(self).wf(),
            old(self).pos_of() < old(self).text().len(),
            old(self).text()[old(self).pos_of()] == '<',
        ensures
            final(self).wf(),
            final(self).text() == old(self).text(),
            old(self).pos_of() <= final(self).pos_of(),
            match r {
                Ok(n) => {
                    &&& ps_element(old(self).text(), old(self).pos_of()) == Some(
                        (node_view(n), final(self).pos_of()),
                    )
                    &&& node_wf(n)
                    &&& old(self).pos_of() < final(self).pos_of()
                },
                Err(e) => {
                    &&& ps_element(old(self).text(), old(self).pos_of()) is None
                    &&& e == PipelineError::MalformedDocument
                },
            },
        decreases old(self).text().len() - old(self).pos_of(), 0int,
    {
        let ghost s = old(self).text();
        let ghost p0 = old(self).pos_of();
        // Opening tag.
        match self.expect('<') {
            Ok(_) => {},
            Err(e) => {
                return Err(e);
            },
        }
        proof {
            lemma_name_end_bounds(s, p0 + 1);
            assert(hold_at(p0 + 1, name_end(s, p0 + 1), s.len() as int) == name_end(s, p0 + 1));
        }
        let tag_name = self.parse_name();
        let attributes = match self.parse_attributes() {
            Ok(a) => a,
            Err(e) => {
                return Err(e);
            },
        };
        match self.expect('>') {
            Ok(_) => {},
            Err(e) => {
                return Err(e);
            },
        }
        // Children.
        let ghost gt = self.pos_of() - 1;
        proof {
            assert(step_to(p0, gt + 1, s.len() as int) == gt + 1);
        }
        let children = match self.parse_nodes() {
            Ok(ns) => ns,
            Err(e) => {
                return Err(e);
            },
        };
        let ghost c0 = self.pos_of();
        let ghost tag = s.subrange(p0 + 1, name_end(s, p0 + 1));
        // Closing tag, which must name the same tag.
        match self.expect('<') {
            Ok(_) => {},
            Err(e) => {
                return Err(e);
            },
        }
        match self.expect('/') {
            Ok(_) => {},
            Err(e) => {
                return Err(e);
            },
        }
        match self.expect_str(tag_name.as_str()) {
            Ok(_) => {},
            Err(e) => {
                proof {
                    assert(tag_name@ == tag);
                    assert(ps_element(s, p0) is None);
                }
                return Err(e);
            },
        }
        match self.expect('>') {
            Ok(_) => {},
            Err(e) => {
                return Err(e);
            },
        }
        let node = Node::new_by_element(tag_name, attributes, children);
        proof {
            assert(node_view(node).children =~= nodes_views(children@));
            assert(ps_element(s, p0) matches Some(g) && g.0 =~= node_view(node) && g.1
                == final(self).pos_of());
        }
        Ok(node)
    }

    /// Parse a single node: an element after a tag marker, a text run
    /// otherwise — exactly the node the grammar `ps_node` reads at the
    /// cursor.
    fn parse_node(&mut self) -> (r: Result<Node, PipelineError>)
        requires
            old(self).wf(),
            old(self).pos_of() < old(self).text().len(),
        ensures
            final(self).wf(),
            final(self).text() == old(self).text(),
            old(self).pos_of() <= final(self).pos_of(),
            match r {
                Ok(n) => {
                    &&& ps_node(old(self).text(), old(self).pos_of()) == Some(
                        (node_view(n), final(self).pos_of()),
                    )
                    &&& node_wf(n)
                    &&& old(self).pos_of() < final(self).pos_of()
                },
                Err(e) => {
                    &&& ps_node(old(self).text(), old(self).pos_of()) is None
                    &&& e == PipelineError::MalformedDocument
                },
            },
        decreases old(self).text().len() - old(self).pos_of(), 1int,
    {
        let ghost s = old(self).text();
        let ghost p0 = old(self).pos_of();
        if self.next_char() == '<' {
            self.parse_element()
        } else {
            let n = self.parse_text();
            proof {
                assert(node_view(n).children =~= Seq::<GNode>::empty());
                assert(node_view(n) =~= (GNode {
                    kind: GNodeKind::Text(s.subrange(p0, text_end(s, p0))),
                    children: Seq::empty(),
                }));
            }
            Ok(n)
        }
    }

    /// Parse sibling nodes until the input ends or a closing tag begins:
    /// exactly the run the grammar `ps_nodes` reads at the cursor, in
    /// document order.
    #[verifier::loop_isolation(false)]
    fn parse_nodes(&mut self) -> (r: Result<Vec<Node>, PipelineError>)
        requires
            old(self).wf(),
        ensures
            final(self).wf(),
            final(self).text() == old(self).text(),
            old(self).pos_of() <= final(self).pos_of(),
            match r {
                Ok(ns) => {
                    &&& ps_nodes(old(self).text(), old(self).pos_of(), Seq::empty()) == Some(
                        (nodes_views(ns@), final(self).pos_of()),
                    )
                    &&& forall|j: int| 0 <= j < ns@.len() ==> node_wf(#[trigger] ns@[j])
                },
                Err(e) => {
                    &&& ps_nodes(old(self).text(), old(self).pos_of(), Seq::empty()) is None
                    &&& e == PipelineError::MalformedDocument
                },
            },
        decreases old(self).text().len() - old(self).pos_of(), 2int,
    {
        let ghost s = old(self).text();
        let ghost p0 = old(self).pos_of();
        let mut nodes: Vec<Node> = Vec::new();
        proof {
            assert(nodes_views(nodes@) =~= Seq::<GNode>::empty());
        }
        loop
            invariant
                self.wf(),
                self.text() == s,
                p0 <= self.pos_of(),
                forall|j: int| 0 <= j < nodes@.len() ==> node_wf(#[trigger] nodes@[j]),
                ps_nodes(s, p0, Seq::empty()) == ps_nodes(s, self.pos_of(), nodes_views(nodes@)),
            decreases self.text().len() - self.pos_of(),
        {
            let ghost cur = self.pos_of();
            let ghost accv = nodes_views(nodes@);
            self.consume_whitespace();
            let ghost q = self.pos_of();
            proof {
                assert(hold_at(cur, ws_end(s, cur), s.len() as int) == q);
            }
            if self.eof() || self.starts_with_closing() {
                proof {
                    assert(ps_nodes(s, cur, accv) == Some((accv, q)));
                }
                return Ok(nodes);
            }
            let node = match self.parse_node() {
                Ok(n) => n,
                Err(e) => {
                    proof {
                        assert(ps_nodes(s, cur, accv) is None);
                    }
                    return Err(e);
                },
            };
            let ghost e = self.pos_of();
            let ghost gn = node_view(node);
            nodes.push(node);
            proof {
                assert(nodes_views(nodes@) =~= accv.push(gn));
                assert(step_to(cur, e, s.len() as int) == e);
                assert(ps_nodes(s, cur, accv) == ps_nodes(s, e, accv.push(gn)));
            }
        }
    }

    /// Parse a markup document, returning the root node. Succeeds exactly
    /// when the document grammar `ps_document` accepts the input, and
    /// then returns exactly its tree: a single top-level node as is, any
    /// other number wrapped in a synthetic `html` element.
    pub fn parse(source: String) -> (r: Result<Node, PipelineError>)
        ensures
            r is Ok <==> ps_document(source@) is Some,
            match r {
                Ok(n) => {
                    &&& node_view(n) == ps_document(source@)->Some_0
                    &&& node_wf(n)
                },
                Err(e) => e == PipelineError::MalformedDocument,
            },
    {
        let ghost s = source@;
        let mut parser = Parser::new(source.as_str());
        let mut nodes = match parser.parse_nodes() {
            Ok(ns) => ns,
            Err(e) => {
                return Err(e);
            },
        };
        // If the document holds exactly one root element, return it;
        // otherwise create one around whatever was parsed.
        let ghost ns_view = nodes_views(nodes@);
        if nodes.len() == 1 {
            let root = nodes.remove(0);
            proof {
                assert(node_view(root) == ns_view[0]);
            }
            return Ok(root);
        }
        let wrapped = Node::new_by_element("html".to_owned(), AttributeMap::new(), nodes);
        proof {
            assert(node_view(wrapped).children =~= ns_view);
            assert(node_view(wrapped).kind matches GNodeKind::Element(t, attrs) && t == "html"@
                && attrs =~= Map::<Seq<char>, Seq<char>>::empty());
            assert(node_view(wrapped) =~= ps_document(s)->Some_0);
        }
        Ok(wrapped)
    }
}

} // verus!
