//! The two text grammars: a markup subset and a stylesheet subset, each
//! read by a cursor-based recursive-descent parser. Every parsing
//! function is pinned to a spec-level parser over the input's character
//! sequence, so the result (or the error, with its offset) is determined
//! by the input alone.

use vstd::prelude::*;

verus! {

use crate::dom;
use crate::dom::{AttrMap, ElementDataV, Node, NodeTypeV, NodeV};
use crate::strutil::{run_end, lemma_run_end};
use vstd::string::StrSliceExecFns;
use vstd::string::StringExecFns;

/// Spec-level picture of a markup parse error: where it was detected and
/// what the parser expected there.
pub struct MarkupErrV {
    pub offset: nat,
    pub expected: Seq<char>,
}

/// A markup parse error: the character offset at which it was detected
/// and the token expected there.
#[derive(Debug)]
pub struct MarkupParseError {
    pub offset: usize,
    pub expected: String,
}

impl View for MarkupParseError {
    type V = MarkupErrV;

    open spec fn view(&self) -> MarkupErrV {
        MarkupErrV { offset: self.offset as nat, expected: self.expected@ }
    }
}

/// ASCII whitespace.
pub open spec fn is_space(c: char) -> bool {
    c == ' ' || c == '\t' || c == '\n' || c == '\r' || c == '\u{000C}'
}

/// A tag or attribute name character.
pub open spec fn is_name_char(c: char) -> bool {
    ('a' <= c && c <= 'z') || ('A' <= c && c <= 'Z') || ('0' <= c && c <= '9')
}

/// A stylesheet identifier character.
pub open spec fn is_ident_char(c: char) -> bool {
    is_name_char(c) || c == '-' || c == '_'
}

/// A decimal digit.
pub open spec fn is_digit(c: char) -> bool {
    '0' <= c && c <= '9'
}

/// The character classes the parsers consume runs of.
#[derive(Clone, Copy)]
pub enum CharTest {
    Space,
    Name,
    Ident,
    Number,
    NotLt,
    NotChar(char),
}

/// The predicate a `CharTest` stands for.
pub open spec fn pred_of(t: CharTest) -> spec_fn(char) -> bool {
    match t {
        CharTest::Space => |c: char| is_space(c),
        CharTest::Name => |c: char| is_name_char(c),
        CharTest::Ident => |c: char| is_ident_char(c),
        CharTest::Number => |c: char| is_digit(c) || c == '.',
        CharTest::NotLt => |c: char| c != '<',
        CharTest::NotChar(q) => |c: char| c != q,
    }
}

/// Does `t`'s predicate hold of `c`?
fn char_test(t: CharTest, c: char) -> (r: bool)
    ensures
        r == pred_of(t)(c),
{
    match t {
        CharTest::Space => c == ' ' || c == '\t' || c == '\n' || c == '\r' || c == '\u{000C}',
        CharTest::Name => ('a' <= c && c <= 'z') || ('A' <= c && c <= 'Z') || ('0' <= c && c
            <= '9'),
        CharTest::Ident => ('a' <= c && c <= 'z') || ('A' <= c && c <= 'Z') || ('0' <= c && c
            <= '9') || c == '-' || c == '_',
        CharTest::Number => ('0' <= c && c <= '9') || c == '.',
        CharTest::NotLt => c != '<',
        CharTest::NotChar(q) => c != q,
    }
}

/// Does `t` occur in `s` starting at `pos`?
pub open spec fn starts_with_at(s: Seq<char>, pos: nat, t: Seq<char>) -> bool {
    pos + t.len() <= s.len() && s.subrange(pos as int, pos + t.len() as int) == t
}

/// The position right after the whitespace run starting at `pos`.
pub open spec fn skip_ws(s: Seq<char>, pos: nat) -> nat {
    run_end(s, pos, pred_of(CharTest::Space))
}

/// The name starting at `pos` and the position right after it.
pub open spec fn spec_parse_name(s: Seq<char>, pos: nat) -> (Seq<char>, nat) {
    let e = run_end(s, pos, pred_of(CharTest::Name));
    (s.subrange(pos as int, e as int), e)
}

/// The closing quote the parser expects once `q` opened a value.
pub open spec fn quote_str(q: char) -> Seq<char> {
    if q == '\'' {
        "'"@
    } else {
        "\""@
    }
}

/// A quoted attribute value at `pos`: the quote character, the run up to
/// its mate, the mate itself.
pub open spec fn spec_parse_attr_value(s: Seq<char>, pos: nat) -> Result<
    (Seq<char>, nat),
    MarkupErrV,
> {
    if pos >= s.len() {
        Err(MarkupErrV { offset: pos, expected: "\""@ })
    } else {
        let q = s[pos as int];
        if q != '"' && q != '\'' {
            Err(MarkupErrV { offset: pos, expected: "\""@ })
        } else {
            let e = run_end(s, (pos + 1) as nat, pred_of(CharTest::NotChar(q)));
            if e >= s.len() {
                Err(MarkupErrV { offset: e, expected: quote_str(q) })
            } else {
                Ok((s.subrange(pos as int + 1, e as int), (e + 1) as nat))
            }
        }
    }
}

/// One `name="value"` pair at `pos`.
pub open spec fn spec_parse_attr(s: Seq<char>, pos: nat) -> Result<
    ((Seq<char>, Seq<char>), nat),
    MarkupErrV,
> {
    let (name, p1) = spec_parse_name(s, pos);
    if !starts_with_at(s, p1, "="@) {
        Err(MarkupErrV { offset: p1, expected: "="@ })
    } else {
        match spec_parse_attr_value(s, (p1 + "="@.len()) as nat) {
            Err(e) => Err(e),
            Ok((value, p2)) => Ok(((name, value), p2)),
        }
    }
}

/// An `Ok` attribute parse lands strictly past `pos`, within the input.
pub proof fn lemma_parse_attr_bounds(s: Seq<char>, pos: nat)
    requires
        pos <= s.len(),
    ensures
        spec_parse_attr(s, pos) matches Ok((av, p2)) ==> pos < p2 <= s.len(),
{
    lemma_run_end(s, pos, pred_of(CharTest::Name));
    let p1 = run_end(s, pos, pred_of(CharTest::Name));
    if starts_with_at(s, p1, "="@) {
        reveal_strlit("=");
        let pv = (p1 + "="@.len()) as nat;
        if pv < s.len() {
            lemma_run_end(s, (pv + 1) as nat, pred_of(CharTest::NotChar(s[pv as int])));
        }
    }
}

/// The attribute list before a `>`: whitespace-separated pairs folded
/// into `acc`, a later pair for a name replacing an earlier one. Stops
/// (without consuming) at the `>`.
pub open spec fn spec_parse_attributes(
    s: Seq<char>,
    pos: nat,
    acc: Map<Seq<char>, Seq<char>>,
) -> Result<(Map<Seq<char>, Seq<char>>, nat), MarkupErrV>
    decreases s.len() - pos,
{
    if pos > s.len() {
        Err(MarkupErrV { offset: pos, expected: ">"@ })
    } else {
        let p = skip_ws(s, pos);
        proof {
            lemma_run_end(s, pos, pred_of(CharTest::Space));
        }
        if p >= s.len() {
            Err(MarkupErrV { offset: p, expected: ">"@ })
        } else if s[p as int] == '>' {
            Ok((acc, p))
        } else {
            match spec_parse_attr(s, p) {
                Err(e) => Err(e),
                Ok(((name, value), p2)) => {
                    proof {
                        lemma_parse_attr_bounds(s, p);
                    }
                    spec_parse_attributes(s, p2, acc.insert(name, value))
                },
            }
        }
    }
}

/// An `Ok` attribute-list parse stops on the `>` itself.
pub proof fn lemma_parse_attributes_bounds(s: Seq<char>, pos: nat, acc: Map<Seq<char>, Seq<char>>)
    requires
        pos <= s.len(),
    ensures
        spec_parse_attributes(s, pos, acc) matches Ok((m, p)) ==> pos <= p < s.len() && s[p as int]
            == '>',
    decreases s.len() - pos,
{
    let p = skip_ws(s, pos);
    lemma_run_end(s, pos, pred_of(CharTest::Space));
    if p < s.len() && s[p as int] != '>' {
        lemma_parse_attr_bounds(s, p);
        if let Ok(((name, value), p2)) = spec_parse_attr(s, p) {
            lemma_parse_attributes_bounds(s, p2, acc.insert(name, value));
        }
    }
}

/// The text run from `pos` up to the next `<`, as a text node.
pub open spec fn spec_parse_text(s: Seq<char>, pos: nat) -> (NodeV, nat) {
    let e = run_end(s, pos, pred_of(CharTest::NotLt));
    (NodeV { node_type: NodeTypeV::Text(s.subrange(pos as int, e as int)), children: Seq::empty() },
    e)
}

/// A recursion bound kept within `(pos, len]` so the measure shrinks; it
/// equals `next` whenever the parse really advanced, which every `Ok`
/// parse does.
pub open spec fn adv(pos: nat, next: nat, len: nat) -> nat {
    if pos < next <= len {
        next
    } else {
        len
    }
}

/// A node at `pos`: an element if `<` is next, else a text run.
pub open spec fn spec_parse_node(s: Seq<char>, pos: nat) -> Result<(NodeV, nat), MarkupErrV>
    decreases s.len() - pos, 1int,
{
    if starts_with_at(s, pos, "<"@) {
        proof {
            reveal_strlit("<");
        }
        spec_parse_element(s, pos)
    } else {
        Ok(spec_parse_text(s, pos))
    }
}

/// An element at `pos`: `<`, a name, attributes, `>`, children, then the
/// closing tag, whose name must equal the opening one.
pub open spec fn spec_parse_element(s: Seq<char>, pos: nat) -> Result<(NodeV, nat), MarkupErrV>
    decreases s.len() - pos, 0int,
{
    if !starts_with_at(s, pos, "<"@) {
        Err(MarkupErrV { offset: pos, expected: "<"@ })
    } else {
        proof {
            reveal_strlit("<");
        }
        let (tag_name, p1) = spec_parse_name(s, (pos + 1) as nat);
        match spec_parse_attributes(s, p1, Map::empty()) {
            Err(e) => Err(e),
            Ok((attrs, p2)) => {
                proof {
                    lemma_run_end(s, (pos + 1) as nat, pred_of(CharTest::Name));
                    if pos + 1 <= s.len() {
                        lemma_parse_attributes_bounds(s, p1, Map::empty());
                    }
                }
                match spec_parse_nodes(s, adv(pos, (p2 + 1) as nat, s.len()), Seq::empty()) {
                    Err(e) => Err(e),
                    Ok((children, p3)) => {
                        if !starts_with_at(s, p3, "</"@) {
                            Err(MarkupErrV { offset: p3, expected: "</"@ })
                        } else {
                            let p4 = (p3 + "</"@.len()) as nat;
                            if !starts_with_at(s, p4, tag_name) {
                                Err(MarkupErrV { offset: p4, expected: tag_name })
                            } else {
                                let p5 = (p4 + tag_name.len()) as nat;
                                if !starts_with_at(s, p5, ">"@) {
                                    Err(MarkupErrV { offset: p5, expected: ">"@ })
                                } else {
                                    Ok(
                                        (
                                            NodeV {
                                                node_type: NodeTypeV::Element(
                                                    ElementDataV { tag_name, attrs },
                                                ),
                                                children,
                                            },
                                            (p5 + ">"@.len()) as nat,
                                        ),
                                    )
                                }
                            }
                        }
                    },
                }
            },
        }
    }
}

/// The sibling nodes from `pos` appended to `acc`, stopping at the end
/// of input or at a closing-tag marker; whitespace between siblings is
/// discarded.
pub open spec fn spec_parse_nodes(s: Seq<char>, pos: nat, acc: Seq<NodeV>) -> Result<
    (Seq<NodeV>, nat),
    MarkupErrV,
>
    decreases s.len() - pos, 2int,
{
    if pos > s.len() {
        Ok((acc, pos))
    } else {
        let p = skip_ws(s, pos);
        proof {
            lemma_run_end(s, pos, pred_of(CharTest::Space));
        }
        if p >= s.len() || starts_with_at(s, p, "</"@) {
            Ok((acc, p))
        } else {
            match spec_parse_node(s, p) {
                Err(e) => Err(e),
                Ok((n, p2)) => spec_parse_nodes(s, adv(p, p2, s.len()), acc.push(n)),
            }
        }
    }
}

/// Every `Ok` parse of a node or element advances; a sibling list never
/// retreats.
pub proof fn lemma_parse_node_advances(s: Seq<char>, pos: nat)
    requires
        pos <= s.len(),
    ensures
        spec_parse_node(s, pos) matches Ok((n, p2)) ==> pos < p2 <= s.len() || (pos == p2
            && !starts_with_at(s, pos, "<"@)),
        spec_parse_element(s, pos) matches Ok((n, p2)) ==> pos < p2 <= s.len(),
    decreases s.len() - pos, 1int,
{
    reveal_strlit("<");
    reveal_strlit("</");
    reveal_strlit(">");
    lemma_run_end(s, pos, pred_of(CharTest::NotLt));
    if starts_with_at(s, pos, "<"@) {
        let (tag_name, p1) = spec_parse_name(s, (pos + 1) as nat);
        lemma_run_end(s, (pos + 1) as nat, pred_of(CharTest::Name));
        if let Ok((attrs, p2)) = spec_parse_attributes(s, p1, Map::empty()) {
            lemma_parse_attributes_bounds(s, p1, Map::empty());
            lemma_parse_nodes_bounds(s, adv(pos, (p2 + 1) as nat, s.len()), Seq::empty());
        }
    }
}

/// A sibling-list parse lands at or after `pos`, within the input.
pub proof fn lemma_parse_nodes_bounds(s: Seq<char>, pos: nat, acc: Seq<NodeV>)
    requires
        pos <= s.len(),
    ensures
        spec_parse_nodes(s, pos, acc) matches Ok((ns, p2)) ==> pos <= p2 <= s.len(),
    decreases s.len() - pos, 2int,
{
    let p = skip_ws(s, pos);
    lemma_run_end(s, pos, pred_of(CharTest::Space));
    if !(p >= s.len() || starts_with_at(s, p, "</"@)) {
        lemma_parse_node_advances(s, p);
        if let Ok((n, p2)) = spec_parse_node(s, p) {
            lemma_parse_nodes_bounds(s, adv(p, p2, s.len()), acc.push(n));
        }
    }
}

/// The whole document: its top-level nodes, wrapped in a synthetic
/// `html` element unless there is exactly one; trailing input that the
/// node grammar cannot consume is an error.
pub open spec fn spec_parse_markup(s: Seq<char>) -> Result<NodeV, MarkupErrV> {
    match spec_parse_nodes(s, 0, Seq::empty()) {
        Err(e) => Err(e),
        Ok((ns, p)) => {
            if p < s.len() {
                Err(MarkupErrV { offset: p, expected: "end of input"@ })
            } else if ns.len() == 1 {
                Ok(ns[0])
            } else {
                Ok(
                    NodeV {
                        node_type: NodeTypeV::Element(
                            ElementDataV { tag_name: "html"@, attrs: Map::empty() },
                        ),
                        children: ns,
                    },
                )
            }
        },
    }
}

/// The cursor the recursive-descent parsers share: the input and the
/// position (in characters) reached so far.
pub struct Parser {
    input: String,
    pos: usize,
}

impl Parser {
    /// The input as a character sequence.
    pub closed spec fn src(&self) -> Seq<char> {
        self.input@
    }

    /// The cursor position.
    pub closed spec fn at(&self) -> nat {
        self.pos as nat
    }

    /// The cursor stays within the input.
    pub closed spec fn wf(&self) -> bool {
        self.pos <= self.input@.len() && self.input@.len() <= usize::MAX
    }

    /// A parser at the start of `source`.
    pub fn new(source: String) -> (r: Parser)
        ensures
            r.wf(),
            r.src() == source@,
            r.at() == 0,
    {
        let n = source.as_str().unicode_len();
        Parser { input: source, pos: 0 }
    }

    /// The error "expected `what` at the current position".
    fn err(&self, what: &str) -> (r: MarkupParseError)
        ensures
            r@ == (MarkupErrV { offset: self.at(), expected: what@ }),
    {
        MarkupParseError { offset: self.pos, expected: String::from_str(what) }
    }

    /// Is the whole input consumed?
    pub fn eof(&self) -> (r: bool)
        requires
            self.wf(),
        ensures
            r == (self.at() >= self.src().len()),
    {
        self.pos >= self.input.as_str().unicode_len()
    }

    /// The character under the cursor, left unconsumed.
    pub fn next_char(&self) -> (c: char)
        requires
            self.wf(),
            self.at() < self.src().len(),
        ensures
            c == self.src()[self.at() as int],
    {
        self.input.as_str().get_char(self.pos)
    }

    /// The character under the cursor, consumed.
    pub fn consume_char(&mut self) -> (c: char)
        requires
            old(self).wf(),
            old(self).at() < old(self).src().len(),
        ensures
            final(self).wf(),
            final(self).src() == old(self).src(),
            final(self).at() == old(self).at() + 1,
            c == old(self).src()[old(self).at() as int],
    {
        let c = self.input.as_str().get_char(self.pos);
        self.pos = self.pos + 1;
        c
    }

    /// Does the remaining input start with `s`?
    pub fn starts_with(&self, s: &str) -> (r: bool)
        requires
            self.wf(),
        ensures
            r == starts_with_at(self.src(), self.at(), s@),
    {
        let n = s.unicode_len();
        let len = self.input.as_str().unicode_len();
        if n > len - self.pos {
            return false;
        }
        let mut j: usize = 0;
        while j < n
            invariant
                self.wf(),
                j <= n,
                n == s@.len(),
                len == self.src().len(),
                self.at() + n <= len,
                forall|k: int| 0 <= k < j ==> self.src()[self.at() + k] == s@[k],
            decreases n - j,
        {
            if self.input.as_str().get_char(self.pos + j) != s.get_char(j) {
                assert(self.src().subrange(
                    self.at() as int,
                    self.at() as int + s@.len() as int,
                )[j as int] != s@[j as int]);
                return false;
            }
            j += 1;
        }
        proof {
            assert(self.src().subrange(self.at() as int, self.at() as int + s@.len() as int) =~= s@);
        }
        true
    }

    /// Consumes `s` if it is next, and reports what was expected if not.
    pub fn expect(&mut self, s: &str) -> (r: Result<(), MarkupParseError>)
        requires
            old(self).wf(),
        ensures
            final(self).wf(),
            final(self).src() == old(self).src(),
            match r {
                Ok(()) => starts_with_at(old(self).src(), old(self).at(), s@) && final(self).at()
                    == old(self).at() + s@.len(),
                Err(e) => !starts_with_at(old(self).src(), old(self).at(), s@) && e@ == (MarkupErrV {
                    offset: old(self).at(),
                    expected: s@,
                }),
            },
    {
        if self.starts_with(s) {
            let n = s.unicode_len();
            self.pos = self.pos + n;
            Ok(())
        } else {
            Err(self.err(s))
        }
    }

    /// Consumes the run of characters passing `test` and returns it.
    pub fn consume_while(&mut self, test: CharTest) -> (r: String)
        requires
            old(self).wf(),
        ensures
            final(self).wf(),
            final(self).src() == old(self).src(),
            final(self).at() == run_end(old(self).src(), old(self).at(), pred_of(test)),
            r@ == old(self).src().subrange(old(self).at() as int, final(self).at() as int),
    {
        let ghost pred = pred_of(test);
        let len = self.input.as_str().unicode_len();
        let start = self.pos;
        while self.pos < len && char_test(test, self.input.as_str().get_char(self.pos))
            invariant
                self.wf(),
                self.src() == old(self).src(),
                start <= self.pos,
                len == self.src().len(),
                pred == pred_of(test),
                run_end(self.src(), start as nat, pred) == run_end(self.src(), self.at(), pred),
            decreases len - self.pos,
        {
            self.pos = self.pos + 1;
        }
        proof {
            assert(run_end(self.src(), self.at(), pred) == self.at());
        }
        self.input.as_str().substring_char(start, self.pos).to_owned()
    }

    /// Consumes and discards whitespace.
    pub fn consume_whitespace(&mut self)
        requires
            old(self).wf(),
        ensures
            final(self).wf(),
            final(self).src() == old(self).src(),
            final(self).at() == skip_ws(old(self).src(), old(self).at()),
    {
        let _ = self.consume_while(CharTest::Space);
    }

    /// Parses a tag or attribute name (possibly empty).
    pub fn parse_name(&mut self) -> (r: String)
        requires
            old(self).wf(),
        ensures
            final(self).wf(),
            final(self).src() == old(self).src(),
            (r@, final(self).at()) == spec_parse_name(old(self).src(), old(self).at()),
    {
        self.consume_while(CharTest::Name)
    }

    /// Parses a quoted attribute value.
    pub fn parse_attr_value(&mut self) -> (r: Result<String, MarkupParseError>)
        requires
            old(self).wf(),
        ensures
            final(self).wf(),
            final(self).src() == old(self).src(),
            match r {
                Ok(v) => spec_parse_attr_value(old(self).src(), old(self).at()) == Ok::<
                    _,
                    MarkupErrV,
                >((v@, final(self).at())),
                Err(e) => spec_parse_attr_value(old(self).src(), old(self).at()) == Err::<
                    (Seq<char>, nat),
                    _,
                >(e@),
            },
    {
        if self.eof() {
            return Err(self.err("\""));
        }
        let open_quote = self.next_char();
        if !(open_quote == '"' || open_quote == '\'') {
            return Err(self.err("\""));
        }
        let _ = self.consume_char();
        let value = self.consume_while(CharTest::NotChar(open_quote));
        if self.eof() {
            if open_quote == '\'' {
                return Err(self.err("'"));
            } else {
                return Err(self.err("\""));
            }
        }
        let _ = self.consume_char();
        Ok(value)
    }

    /// Parses one `name="value"` pair.
    pub fn parse_attr(&mut self) -> (r: Result<(String, String), MarkupParseError>)
        requires
            old(self).wf(),
        ensures
            final(self).wf(),
            final(self).src() == old(self).src(),
            match r {
                Ok(nv) => spec_parse_attr(old(self).src(), old(self).at()) == Ok::<_, MarkupErrV>(
                    ((nv.0@, nv.1@), final(self).at()),
                ),
                Err(e) => spec_parse_attr(old(self).src(), old(self).at()) == Err::<
                    ((Seq<char>, Seq<char>), nat),
                    _,
                >(e@),
            },
    {
        let name = self.parse_name();
        match self.expect("=") {
            Err(e) => Err(e),
            Ok(()) => {
                match self.parse_attr_value() {
                    Err(e) => Err(e),
                    Ok(value) => Ok((name, value)),
                }
            },
        }
    }

    /// Parses the attribute list of an open tag, stopping at its `>`.
    pub fn parse_attributes(&mut self) -> (r: Result<AttrMap, MarkupParseError>)
        requires
            old(self).wf(),
        ensures
            final(self).wf(),
            final(self).src() == old(self).src(),
            match r {
                Ok(m) => spec_parse_attributes(old(self).src(), old(self).at(), Map::empty())
                    == Ok::<_, MarkupErrV>((m@, final(self).at())),
                Err(e) => spec_parse_attributes(old(self).src(), old(self).at(), Map::empty())
                    == Err::<(Map<Seq<char>, Seq<char>>, nat), _>(e@),
            },
    {
        let mut attributes = AttrMap::new();
        loop
            invariant
                self.wf(),
                self.src() == old(self).src(),
                self.at() <= self.src().len(),
                spec_parse_attributes(old(self).src(), old(self).at(), Map::empty())
                    == spec_parse_attributes(self.src(), self.at(), attributes@),
            decreases self.src().len() - self.at(),
        {
            let ghost p0 = self.at();
            proof {
                lemma_run_end(self.src(), p0, pred_of(CharTest::Space));
            }
            self.consume_whitespace();
            if self.eof() {
                return Err(self.err(">"));
            }
            if self.next_char() == '>' {
                return Ok(attributes);
            }
            let ghost p = self.at();
            match self.parse_attr() {
                Err(e) => {
                    return Err(e);
                },
                Ok((name, value)) => {
                    proof {
                        lemma_parse_attr_bounds(self.src(), p);
                    }
                    attributes.insert(name, value);
                },
            }
        }
    }

    /// Parses a text node: everything up to the next `<`.
    pub fn parse_text(&mut self) -> (r: Node)
        requires
            old(self).wf(),
        ensures
            final(self).wf(),
            final(self).src() == old(self).src(),
            (r@, final(self).at()) == spec_parse_text(old(self).src(), old(self).at()),
    {
        let data = self.consume_while(CharTest::NotLt);
        dom::text(data)
    }

    /// Parses one node: an element if `<` is next, else a text run.
    pub fn parse_node(&mut self) -> (r: Result<Node, MarkupParseError>)
        requires
            old(self).wf(),
        ensures
            final(self).wf(),
            final(self).src() == old(self).src(),
            match r {
                Ok(n) => spec_parse_node(old(self).src(), old(self).at()) == Ok::<_, MarkupErrV>(
                    (n@, final(self).at()),
                ),
                Err(e) => spec_parse_node(old(self).src(), old(self).at()) == Err::<
                    (NodeV, nat),
                    _,
                >(e@),
            },
        decreases old(self).src().len() - old(self).at(), 1int,
    {
        if self.starts_with("<") {
            self.parse_element()
        } else {
            Ok(self.parse_text())
        }
    }

    /// Parses an element: open tag, attributes, children, and a closing
    /// tag whose name must equal the opening one.
    pub fn parse_element(&mut self) -> (r: Result<Node, MarkupParseError>)
        requires
            old(self).wf(),
        ensures
            final(self).wf(),
            final(self).src() == old(self).src(),
            match r {
                Ok(n) => spec_parse_element(old(self).src(), old(self).at()) == Ok::<
                    _,
                    MarkupErrV,
                >((n@, final(self).at())),
                Err(e) => spec_parse_element(old(self).src(), old(self).at()) == Err::<
                    (NodeV, nat),
                    _,
                >(e@),
            },
        decreases old(self).src().len() - old(self).at(), 0int,
    {
        let ghost s = old(self).src();
        let ghost pos0 = old(self).at();
        proof {
            reveal_strlit("<");
            reveal_strlit("</");
            reveal_strlit(">");
        }
        match self.expect("<") {
            Err(e) => {
                return Err(e);
            },
            Ok(()) => {},
        }
        let tag_name = self.parse_name();
        let ghost p1 = self.at();
        let attrs = match self.parse_attributes() {
            Err(e) => {
                return Err(e);
            },
            Ok(m) => m,
        };
        proof {
            lemma_run_end(s, (pos0 + 1) as nat, pred_of(CharTest::Name));
            lemma_parse_attributes_bounds(s, p1, Map::empty());
            assert(s.subrange(self.at() as int, self.at() as int + 1) =~= ">"@);
        }
        match self.expect(">") {
            Err(e) => {
                return Err(e);
            },
            Ok(()) => {},
        }
        let ghost pc = self.at();
        let children = match self.parse_nodes() {
            Err(e) => {
                proof {
                    assert(adv(pos0, pc, s.len()) == pc);
                }
                return Err(e);
            },
            Ok(c) => c,
        };
        proof {
            assert(adv(pos0, pc, s.len()) == pc);
        }
        match self.expect("</") {
            Err(e) => {
                return Err(e);
            },
            Ok(()) => {},
        }
        match self.expect(tag_name.as_str()) {
            Err(e) => {
                return Err(e);
            },
            Ok(()) => {},
        }
        match self.expect(">") {
            Err(e) => {
                return Err(e);
            },
            Ok(()) => {},
        }
        Ok(dom::elem(tag_name, attrs, children))
    }

    /// Parses sibling nodes until the end of input or a closing-tag
    /// marker; whitespace between siblings is discarded.
    pub fn parse_nodes(&mut self) -> (r: Result<Vec<Node>, MarkupParseError>)
        requires
            old(self).wf(),
        ensures
            final(self).wf(),
            final(self).src() == old(self).src(),
            match r {
                Ok(ns) => spec_parse_nodes(old(self).src(), old(self).at(), Seq::empty()) == Ok::<
                    _,
                    MarkupErrV,
                >((dom::nodes_view(ns@), final(self).at())),
                Err(e) => spec_parse_nodes(old(self).src(), old(self).at(), Seq::empty()) == Err::<
                    (Seq<NodeV>, nat),
                    _,
                >(e@),
            },
        decreases old(self).src().len() - old(self).at(), 2int,
    {
        let mut nodes: Vec<Node> = Vec::new();
        proof {
            assert(dom::nodes_view(nodes@) =~= Seq::<NodeV>::empty());
        }
        loop
            invariant
                self.wf(),
                self.src() == old(self).src(),
                old(self).at() <= self.at(),
                spec_parse_nodes(self.src(), old(self).at(), Seq::empty()) == spec_parse_nodes(
                    self.src(),
                    self.at(),
                    dom::nodes_view(nodes@),
                ),
            decreases self.src().len() - self.at(),
        {
            let ghost p0 = self.at();
            proof {
                lemma_run_end(self.src(), p0, pred_of(CharTest::Space));
            }
            self.consume_whitespace();
            if self.eof() {
                return Ok(nodes);
            }
            if self.starts_with("</") {
                return Ok(nodes);
            }
            let ghost p = self.at();
            let ghost acc = dom::nodes_view(nodes@);
            match self.parse_node() {
                Err(e) => {
                    return Err(e);
                },
                Ok(n) => {
                    proof {
                        reveal_strlit("<");
                        lemma_parse_node_advances(self.src(), p);
                        if self.at() == p {
                            // The parse went to the text branch, yet consumed
                            // nothing: impossible, since `p` is not at `<`.
                            assert(spec_parse_node(self.src(), p) == Ok::<_, MarkupErrV>((n@, p)));
                            if self.src()[p as int] == '<' {
                                assert(self.src().subrange(p as int, p as int + 1) =~= "<"@);
                                assert(starts_with_at(self.src(), p, "<"@));
                            } else {
                                assert(pred_of(CharTest::NotLt)(self.src()[p as int]));
                                lemma_run_end(
                                    self.src(),
                                    (p + 1) as nat,
                                    pred_of(CharTest::NotLt),
                                );
                                assert(run_end(self.src(), p, pred_of(CharTest::NotLt)) == run_end(
                                    self.src(),
                                    (p + 1) as nat,
                                    pred_of(CharTest::NotLt),
                                ));
                            }
                            assert(false);
                        }
                        assert(adv(p, self.at(), self.src().len()) == self.at());
                    }
                    nodes.push(n);
                    proof {
                        assert(dom::nodes_view(nodes@) =~= acc.push(n@));
                    }
                },
            }
        }
    }

    /// Parses a whole document and returns its root: the single
    /// top-level node, or a synthetic `html` element wrapping all of
    /// them. The entire input must be consumed.
    pub fn parse(source: String) -> (r: Result<Node, MarkupParseError>)
        ensures
            match r {
                Ok(n) => spec_parse_markup(source@) == Ok::<_, MarkupErrV>(n@),
                Err(e) => spec_parse_markup(source@) == Err::<NodeV, _>(e@),
            },
    {
        let mut parser = Parser::new(source);
        let mut nodes = match parser.parse_nodes() {
            Err(e) => {
                return Err(e);
            },
            Ok(ns) => ns,
        };
        if !parser.eof() {
            return Err(parser.err("end of input"));
        }
        if nodes.len() == 1 {
            let n = nodes.remove(0);
            return Ok(n);
        }
        Ok(dom::elem(String::from_str("html"), AttrMap::new(), nodes))
    }
}

/// Spec-level picture of a stylesheet parse error: where it was detected
/// and why.
pub struct StyleErrV {
    pub offset: nat,
    pub reason: Seq<char>,
}

/// A stylesheet parse error: the character offset at which it was
/// detected and the reason.
#[derive(Debug)]
pub struct StyleParseError {
    pub offset: usize,
    pub reason: String,
}

impl View for StyleParseError {
    type V = StyleErrV;

    open spec fn view(&self) -> StyleErrV {
        StyleErrV { offset: self.offset as nat, reason: self.reason@ }
    }
}

/// An exact decimal quantity `mantissa / 10^scale`, as written in the
/// source: `12.5` is mantissa 125 at scale 1.
#[derive(Clone, Copy, PartialEq, Eq, Debug)]
pub struct Decimal {
    pub mantissa: u64,
    pub scale: usize,
}

/// Spec-level picture of an exact decimal.
pub struct DecimalV {
    pub mantissa: int,
    pub scale: int,
}

impl View for Decimal {
    type V = DecimalV;

    open spec fn view(&self) -> DecimalV {
        DecimalV { mantissa: self.mantissa as int, scale: self.scale as int }
    }
}

/// The one length unit the grammar knows.
#[derive(Clone, Copy, PartialEq, Eq, Debug)]
pub enum Unit {
    Px,
}

/// An RGBA color, one byte per channel.
#[derive(Clone, Copy, PartialEq, Eq, Debug)]
pub struct Color {
    pub r: u8,
    pub g: u8,
    pub b: u8,
    pub a: u8,
}

/// A declaration's value: a keyword, a length, or a color.
pub enum Value {
    Keyword(String),
    Length(Decimal, Unit),
    ColorValue(Color),
}

/// Spec-level picture of a value.
pub enum ValueV {
    Keyword(Seq<char>),
    Length(Decimal, Unit),
    ColorValue(Color),
}

impl View for Value {
    type V = ValueV;

    open spec fn view(&self) -> ValueV {
        match self {
            Value::Keyword(s) => ValueV::Keyword(s@),
            Value::Length(d, u) => ValueV::Length(*d, *u),
            Value::ColorValue(c) => ValueV::ColorValue(*c),
        }
    }
}

/// The quantity a value stands for in pixels: its decimal for a pixel
/// length, zero for everything else.
pub open spec fn spec_to_px(v: ValueV) -> Decimal {
    match v {
        ValueV::Length(d, Unit::Px) => d,
        _ => Decimal { mantissa: 0, scale: 0 },
    }
}

impl Value {
    /// The size of a length in pixels; any non-length is zero.
    pub fn to_px(&self) -> (r: Decimal)
        ensures
            r == spec_to_px(self@),
    {
        match self {
            Value::Length(d, Unit::Px) => *d,
            _ => Decimal { mantissa: 0, scale: 0 },
        }
    }

    /// A copy of the value with the same contents.
    pub fn dup(&self) -> (r: Value)
        ensures
            r@ == self@,
    {
        match self {
            Value::Keyword(s) => Value::Keyword(s.clone()),
            Value::Length(d, u) => Value::Length(*d, *u),
            Value::ColorValue(c) => Value::ColorValue(*c),
        }
    }
}

/// A simple selector: an optional tag name, an optional id, and class
/// conditions.
pub struct SimpleSelector {
    pub tag_name: Option<String>,
    pub id: Option<String>,
    pub class: Vec<String>,
}

/// Spec-level picture of a simple selector.
pub struct SimpleSelectorV {
    pub tag_name: Option<Seq<char>>,
    pub id: Option<Seq<char>>,
    pub class: Seq<Seq<char>>,
}

impl View for SimpleSelector {
    type V = SimpleSelectorV;

    open spec fn view(&self) -> SimpleSelectorV {
        SimpleSelectorV {
            tag_name: match self.tag_name {
                Some(ref t) => Some(t@),
                None => None,
            },
            id: match self.id {
                Some(ref t) => Some(t@),
                None => None,
            },
            class: crate::dom::strings_view(self.class@),
        }
    }
}

/// A selector; only the simple form exists in this grammar.
pub enum Selector {
    Simple(SimpleSelector),
}

/// Spec-level picture of a selector.
pub enum SelectorV {
    Simple(SimpleSelectorV),
}

impl View for Selector {
    type V = SelectorV;

    open spec fn view(&self) -> SelectorV {
        match self {
            Selector::Simple(s) => SelectorV::Simple(s@),
        }
    }
}

/// A selector's rank in the cascade: id, class and tag counts, compared
/// lexicographically.
pub type Specificity = (usize, usize, usize);

/// The specificity of a spec-level selector.
pub open spec fn spec_specificity(sel: SelectorV) -> (int, int, int) {
    match sel {
        SelectorV::Simple(s) => (
            if s.id is Some {
                1int
            } else {
                0int
            },
            s.class.len() as int,
            if s.tag_name is Some {
                1int
            } else {
                0int
            },
        ),
    }
}

/// Lexicographic order on specificities.
pub open spec fn spec_lt(a: (int, int, int), b: (int, int, int)) -> bool {
    a.0 < b.0 || (a.0 == b.0 && (a.1 < b.1 || (a.1 == b.1 && a.2 < b.2)))
}

/// The triple a `Specificity` stands for.
pub open spec fn spec3(a: Specificity) -> (int, int, int) {
    (a.0 as int, a.1 as int, a.2 as int)
}

/// Is `a` strictly less specific than `b`?
pub fn specificity_lt(a: &Specificity, b: &Specificity) -> (r: bool)
    ensures
        r == spec_lt(spec3(*a), spec3(*b)),
{
    a.0 < b.0 || (a.0 == b.0 && (a.1 < b.1 || (a.1 == b.1 && a.2 < b.2)))
}

impl Selector {
    /// The selector's specificity: whether it has an id, how many class
    /// conditions it carries, and whether it names a tag.
    pub fn specificity(&self) -> (r: Specificity)
        ensures
            spec3(r) == spec_specificity(self@),
    {
        match self {
            Selector::Simple(simple) => {
                let a: usize = if simple.id.is_some() {
                    1
                } else {
                    0
                };
                let b: usize = simple.class.len();
                let c: usize = if simple.tag_name.is_some() {
                    1
                } else {
                    0
                };
                (a, b, c)
            },
        }
    }

    /// A copy of the selector with the same contents.
    pub fn dup(&self) -> (r: Selector)
        ensures
            r@ == self@,
    {
        match self {
            Selector::Simple(s) => {
                let tag_name = match &s.tag_name {
                    Some(t) => Some(t.clone()),
                    None => None,
                };
                let id = match &s.id {
                    Some(t) => Some(t.clone()),
                    None => None,
                };
                let mut class: Vec<String> = Vec::new();
                let n = s.class.len();
                let mut i: usize = 0;
                while i < n
                    invariant
                        i <= n,
                        n == s.class@.len(),
                        class@.len() == i,
                        forall|j: int| 0 <= j < i ==> class@[j]@ == s.class@[j]@,
                    decreases n - i,
                {
                    class.push(s.class[i].clone());
                    i += 1;
                }
                let r = Selector::Simple(SimpleSelector { tag_name, id, class });
                proof {
                    assert(crate::dom::strings_view(class@) =~= crate::dom::strings_view(
                        s.class@,
                    ));
                }
                r
            },
        }
    }
}

/// A declaration: a property name and its value.
pub struct Declaration {
    pub name: String,
    pub value: Value,
}

/// Spec-level picture of a declaration.
pub struct DeclarationV {
    pub name: Seq<char>,
    pub value: ValueV,
}

impl View for Declaration {
    type V = DeclarationV;

    open spec fn view(&self) -> DeclarationV {
        DeclarationV { name: self.name@, value: self.value@ }
    }
}

/// The views of a sequence of selectors, in order.
pub open spec fn selectors_view(ss: Seq<Selector>) -> Seq<SelectorV> {
    ss.map_values(|x: Selector| x@)
}

/// The views of a sequence of declarations, in order.
pub open spec fn decls_view(ds: Seq<Declaration>) -> Seq<DeclarationV> {
    ds.map_values(|x: Declaration| x@)
}

/// A rule: selectors (any of which may match) and the declarations they
/// apply.
pub struct Rule {
    pub selectors: Vec<Selector>,
    pub declarations: Vec<Declaration>,
}

/// Spec-level picture of a rule.
pub struct RuleV {
    pub selectors: Seq<SelectorV>,
    pub declarations: Seq<DeclarationV>,
}

impl View for Rule {
    type V = RuleV;

    open spec fn view(&self) -> RuleV {
        RuleV {
            selectors: selectors_view(self.selectors@),
            declarations: decls_view(self.declarations@),
        }
    }
}

/// The views of a sequence of rules, in order.
pub open spec fn rules_view(rs: Seq<Rule>) -> Seq<RuleV> {
    rs.map_values(|x: Rule| x@)
}

/// A stylesheet: its rules, in document order. The order is significant:
/// it breaks cascade ties.
pub struct Stylesheet {
    pub rules: Vec<Rule>,
}

impl View for Stylesheet {
    type V = Seq<RuleV>;

    open spec fn view(&self) -> Seq<RuleV> {
        rules_view(self.rules@)
    }
}

/// `x` placed into the descending-by-specificity list `sorted`, after
/// every element at least as specific: a stable insertion.
pub open spec fn desc_insert(sorted: Seq<SelectorV>, x: SelectorV) -> Seq<SelectorV>
    decreases sorted.len(),
{
    if sorted.len() == 0 {
        seq![x]
    } else if !spec_lt(spec_specificity(sorted.last()), spec_specificity(x)) {
        sorted.push(x)
    } else {
        desc_insert(sorted.drop_last(), x).push(sorted.last())
    }
}

/// The selector list sorted by descending specificity, stably: elements
/// inserted left to right, each after its equals.
pub open spec fn sort_selectors_desc(s: Seq<SelectorV>) -> Seq<SelectorV>
    decreases s.len(),
{
    if s.len() == 0 {
        Seq::empty()
    } else {
        desc_insert(sort_selectors_desc(s.drop_last()), s.last())
    }
}

/// Where the exec insertion lands is where `desc_insert` puts `x`.
proof fn lemma_desc_insert_at(sorted: Seq<SelectorV>, x: SelectorV, j: int)
    requires
        0 <= j <= sorted.len(),
        forall|k: int| j <= k < sorted.len() ==> spec_lt(
            spec_specificity(sorted[k]),
            spec_specificity(x),
        ),
        j > 0 ==> !spec_lt(spec_specificity(sorted[j - 1]), spec_specificity(x)),
    ensures
        desc_insert(sorted, x) == sorted.take(j).push(x) + sorted.skip(j),
    decreases sorted.len(),
{
    if sorted.len() == 0 {
        assert(desc_insert(sorted, x) =~= sorted.take(j).push(x) + sorted.skip(j));
    } else if j == sorted.len() {
        assert(sorted.take(j) =~= sorted);
        assert(desc_insert(sorted, x) =~= sorted.take(j).push(x) + sorted.skip(j));
    } else {
        lemma_desc_insert_at(sorted.drop_last(), x, j);
        assert(sorted.drop_last().take(j) =~= sorted.take(j));
        assert(desc_insert(sorted, x) =~= sorted.take(j).push(x) + sorted.skip(j));
    }
}

/// Sorts selectors by descending specificity, stably.
fn sort_selectors(v: Vec<Selector>) -> (r: Vec<Selector>)
    ensures
        selectors_view(r@) == sort_selectors_desc(selectors_view(v@)),
{
    let n = v.len();
    let mut out: Vec<Selector> = Vec::new();
    let mut v = v;
    let ghost full = selectors_view(v@);
    let mut i: usize = 0;
    proof {
        assert(selectors_view(out@) =~= sort_selectors_desc(full.take(0)));
    }
    while i < n
        invariant
            i <= n,
            n == v@.len(),
            full == selectors_view(v@),
            selectors_view(out@) == sort_selectors_desc(full.take(i as int)),
        decreases n - i,
    {
        let x = v[i].dup();
        let sx = x.specificity();
        let mut j: usize = out.len();
        while j > 0 && specificity_lt(&out[j - 1].specificity(), &sx)
            invariant
                j <= out@.len(),
                selectors_view(out@) == sort_selectors_desc(full.take(i as int)),
                spec3(sx) == spec_specificity(full[i as int]),
                x@ == full[i as int],
                forall|k: int| j <= k < out@.len() ==> spec_lt(
                    spec_specificity(selectors_view(out@)[k]),
                    spec_specificity(x@),
                ),
            decreases j,
        {
            j = j - 1;
        }
        proof {
            lemma_desc_insert_at(selectors_view(out@), x@, j as int);
        }
        let ghost before = selectors_view(out@);
        out.insert(j, x);
        proof {
            assert(selectors_view(out@) =~= before.take(j as int).push(
                full[i as int],
            ) + before.skip(j as int));
            assert(full.take(i + 1).drop_last() =~= full.take(i as int));
            assert(full.take(i + 1).last() == full[i as int]);
        }
        i += 1;
    }
    proof {
        assert(full.take(n as int) =~= full);
    }
    out
}

/// The identifier starting at `pos` and the position right after it.
pub open spec fn spec_parse_identifier(s: Seq<char>, pos: nat) -> (Seq<char>, nat) {
    let e = run_end(s, pos, pred_of(CharTest::Ident));
    (s.subrange(pos as int, e as int), e)
}

/// A selector with no conditions yet.
pub open spec fn empty_selector() -> SimpleSelectorV {
    SimpleSelectorV { tag_name: None, id: None, class: Seq::empty() }
}

/// The simple selector at `pos` folded into `acc`: `#` starts an id,
/// `.` a class, `*` is the universal selector, an identifier character
/// starts a tag name; anything else ends the selector.
pub open spec fn spec_parse_simple_selector(s: Seq<char>, pos: nat, acc: SimpleSelectorV) -> (
    SimpleSelectorV,
    nat,
)
    decreases s.len() - pos,
{
    if pos >= s.len() {
        (acc, pos)
    } else {
        let c = s[pos as int];
        proof {
            lemma_run_end(s, (pos + 1) as nat, pred_of(CharTest::Ident));
        }
        if c == '#' {
            let (id, p1) = spec_parse_identifier(s, (pos + 1) as nat);
            spec_parse_simple_selector(s, p1, SimpleSelectorV { id: Some(id), ..acc })
        } else if c == '.' {
            let (cl, p1) = spec_parse_identifier(s, (pos + 1) as nat);
            spec_parse_simple_selector(
                s,
                p1,
                SimpleSelectorV { class: acc.class.push(cl), ..acc },
            )
        } else if c == '*' {
            spec_parse_simple_selector(s, (pos + 1) as nat, acc)
        } else if is_ident_char(c) {
            let (t, p1) = spec_parse_identifier(s, pos);
            spec_parse_simple_selector(s, p1, SimpleSelectorV { tag_name: Some(t), ..acc })
        } else {
            (acc, pos)
        }
    }
}

/// A simple-selector parse lands at or after `pos`, within the input.
pub proof fn lemma_parse_simple_selector_bounds(s: Seq<char>, pos: nat, acc: SimpleSelectorV)
    requires
        pos <= s.len(),
    ensures
        pos <= spec_parse_simple_selector(s, pos, acc).1 <= s.len(),
    decreases s.len() - pos,
{
    if pos < s.len() {
        let c = s[pos as int];
        lemma_run_end(s, (pos + 1) as nat, pred_of(CharTest::Ident));
        if c == '#' {
            let (id, p1) = spec_parse_identifier(s, (pos + 1) as nat);
            lemma_parse_simple_selector_bounds(s, p1, SimpleSelectorV { id: Some(id), ..acc });
        } else if c == '.' {
            let (cl, p1) = spec_parse_identifier(s, (pos + 1) as nat);
            lemma_parse_simple_selector_bounds(
                s,
                p1,
                SimpleSelectorV { class: acc.class.push(cl), ..acc },
            );
        } else if c == '*' {
            lemma_parse_simple_selector_bounds(s, (pos + 1) as nat, acc);
        } else if is_ident_char(c) {
            let (t, p1) = spec_parse_identifier(s, pos);
            lemma_parse_simple_selector_bounds(s, p1, SimpleSelectorV { tag_name: Some(t), ..acc });
        }
    }
}

/// The comma-separated selector list before a `{`, appended to `acc`
/// and finally sorted by descending specificity.
pub open spec fn spec_parse_selectors(s: Seq<char>, pos: nat, acc: Seq<SelectorV>) -> Result<
    (Seq<SelectorV>, nat),
    StyleErrV,
>
    decreases s.len() - pos,
{
    if pos > s.len() {
        Err(StyleErrV { offset: pos, reason: "unexpected end of selector list"@ })
    } else {
        let (ss, p1) = spec_parse_simple_selector(s, pos, empty_selector());
        let acc2 = acc.push(SelectorV::Simple(ss));
        proof {
            lemma_parse_simple_selector_bounds(s, pos, empty_selector());
            lemma_run_end(s, p1, pred_of(CharTest::Space));
        }
        let p2 = skip_ws(s, p1);
        if p2 >= s.len() {
            Err(StyleErrV { offset: p2, reason: "unexpected end of selector list"@ })
        } else if s[p2 as int] == ',' {
            proof {
                lemma_run_end(s, (p2 + 1) as nat, pred_of(CharTest::Space));
            }
            spec_parse_selectors(s, skip_ws(s, (p2 + 1) as nat), acc2)
        } else if s[p2 as int] == '{' {
            Ok((sort_selectors_desc(acc2), p2))
        } else {
            Err(StyleErrV { offset: p2, reason: "unexpected character in selector list"@ })
        }
    }
}

/// An `Ok` selector-list parse stops on the `{` itself.
pub proof fn lemma_parse_selectors_bounds(s: Seq<char>, pos: nat, acc: Seq<SelectorV>)
    requires
        pos <= s.len(),
    ensures
        spec_parse_selectors(s, pos, acc) matches Ok((ss, p)) ==> pos <= p < s.len() && s[p as int]
            == '{',
    decreases s.len() - pos,
{
    let (ss, p1) = spec_parse_simple_selector(s, pos, empty_selector());
    lemma_parse_simple_selector_bounds(s, pos, empty_selector());
    lemma_run_end(s, p1, pred_of(CharTest::Space));
    let p2 = skip_ws(s, p1);
    if p2 < s.len() && s[p2 as int] == ',' {
        lemma_run_end(s, (p2 + 1) as nat, pred_of(CharTest::Space));
        lemma_parse_selectors_bounds(
            s,
            skip_ws(s, (p2 + 1) as nat),
            acc.push(SelectorV::Simple(ss)),
        );
    }
}

/// The numeric value of a digit character.
pub open spec fn digit_val(c: char) -> nat {
    (c as u32 - '0' as u32) as nat
}

/// The number read from the digits of `r`, any dots skipped.
pub open spec fn num_value(r: Seq<char>) -> nat
    decreases r.len(),
{
    if r.len() == 0 {
        0
    } else if is_digit(r.last()) {
        (num_value(r.drop_last()) * 10 + digit_val(r.last())) as nat
    } else {
        num_value(r.drop_last())
    }
}

/// How many characters of `r` are dots.
pub open spec fn count_dots(r: Seq<char>) -> nat
    decreases r.len(),
{
    if r.len() == 0 {
        0nat
    } else {
        (count_dots(r.drop_last()) + if r.last() == '.' {
            1nat
        } else {
            0nat
        }) as nat
    }
}

/// How many characters of `r` are digits.
pub open spec fn count_digits(r: Seq<char>) -> nat
    decreases r.len(),
{
    if r.len() == 0 {
        0nat
    } else {
        (count_digits(r.drop_last()) + if is_digit(r.last()) {
            1nat
        } else {
            0nat
        }) as nat
    }
}

/// How many characters follow the first dot of `r` (zero without a dot).
pub open spec fn frac_len(r: Seq<char>) -> nat
    decreases r.len(),
{
    if r.len() == 0 {
        0
    } else if r[0] == '.' {
        (r.len() - 1) as nat
    } else {
        frac_len(r.drop_first())
    }
}

/// A prefix of `r` never reads as more than all of `r`.
pub proof fn lemma_num_value_mono(r: Seq<char>, i: int)
    requires
        0 <= i <= r.len(),
    ensures
        num_value(r.take(i)) <= num_value(r),
    decreases r.len() - i,
{
    if i < r.len() {
        lemma_num_value_mono(r, i + 1);
        assert(r.take(i + 1).drop_last() =~= r.take(i));
        assert(num_value(r.take(i)) <= num_value(r.take(i + 1)));
    } else {
        assert(r.take(i) =~= r);
    }
}

/// With `d` the one dot of `r`, the fraction is everything after it.
pub proof fn lemma_frac_len_at(r: Seq<char>, d: int)
    requires
        0 <= d < r.len(),
        r[d] == '.',
        forall|k: int| 0 <= k < d ==> r[k] != '.',
    ensures
        frac_len(r) == r.len() - 1 - d,
    decreases d,
{
    if d > 0 {
        lemma_frac_len_at(r.drop_first(), d - 1);
    }
}

/// Without a dot there is no fraction.
pub proof fn lemma_frac_len_none(r: Seq<char>)
    requires
        forall|k: int| 0 <= k < r.len() ==> r[k] != '.',
    ensures
        frac_len(r) == 0,
    decreases r.len(),
{
    if r.len() > 0 {
        lemma_frac_len_none(r.drop_first());
    }
}

/// The number at `pos`: the run of digits and dots, read as an exact
/// decimal. At most one dot, at least one digit, and the digits must
/// fit a 64-bit mantissa.
pub open spec fn spec_parse_number(s: Seq<char>, pos: nat) -> Result<(Decimal, nat), StyleErrV> {
    let e = run_end(s, pos, pred_of(CharTest::Number));
    let r = s.subrange(pos as int, e as int);
    if count_dots(r) <= 1 && count_digits(r) >= 1 && num_value(r) <= u64::MAX {
        Ok((Decimal { mantissa: num_value(r) as u64, scale: frac_len(r) as usize }, e))
    } else {
        Err(StyleErrV { offset: pos, reason: "malformed number"@ })
    }
}

/// Does the identifier read as the pixel unit, case lax?
pub open spec fn is_px(u: Seq<char>) -> bool {
    u.len() == 2 && (u[0] == 'p' || u[0] == 'P') && (u[1] == 'x' || u[1] == 'X')
}

/// The unit at `pos`; only the pixel unit is recognized.
pub open spec fn spec_parse_unit(s: Seq<char>, pos: nat) -> Result<(Unit, nat), StyleErrV> {
    let (u, p1) = spec_parse_identifier(s, pos);
    if is_px(u) {
        Ok((Unit::Px, p1))
    } else {
        Err(StyleErrV { offset: pos, reason: "unrecognized unit"@ })
    }
}

/// The length at `pos`: a number, then its unit.
pub open spec fn spec_parse_length(s: Seq<char>, pos: nat) -> Result<(ValueV, nat), StyleErrV> {
    match spec_parse_number(s, pos) {
        Err(e) => Err(e),
        Ok((d, p1)) => match spec_parse_unit(s, p1) {
            Err(e) => Err(e),
            Ok((u, p2)) => Ok((ValueV::Length(d, u), p2)),
        },
    }
}

/// A hexadecimal digit.
pub open spec fn is_hex(c: char) -> bool {
    is_digit(c) || ('a' <= c && c <= 'f') || ('A' <= c && c <= 'F')
}

/// The numeric value of a hexadecimal digit.
pub open spec fn hex_val(c: char) -> nat {
    if is_digit(c) {
        digit_val(c)
    } else if 'a' <= c && c <= 'f' {
        (c as u32 - 'a' as u32 + 10) as nat
    } else {
        (c as u32 - 'A' as u32 + 10) as nat
    }
}

/// The color channel at `pos`: exactly two hexadecimal digits.
pub open spec fn spec_parse_hex_pair(s: Seq<char>, pos: nat) -> Result<(u8, nat), StyleErrV> {
    if pos + 2 > s.len() {
        Err(StyleErrV { offset: pos, reason: "malformed hex pair"@ })
    } else {
        let c1 = s[pos as int];
        let c2 = s[pos as int + 1];
        if is_hex(c1) && is_hex(c2) {
            Ok(((hex_val(c1) * 16 + hex_val(c2)) as u8, (pos + 2) as nat))
        } else {
            Err(StyleErrV { offset: pos, reason: "malformed hex pair"@ })
        }
    }
}

/// The color at `pos`: `#`, then three hex pairs; alpha is full.
pub open spec fn spec_parse_color(s: Seq<char>, pos: nat) -> Result<(ValueV, nat), StyleErrV> {
    if !starts_with_at(s, pos, "#"@) {
        Err(StyleErrV { offset: pos, reason: "expected '#'"@ })
    } else {
        match spec_parse_hex_pair(s, (pos + 1) as nat) {
            Err(e) => Err(e),
            Ok((r, p1)) => match spec_parse_hex_pair(s, p1) {
                Err(e) => Err(e),
                Ok((g, p2)) => match spec_parse_hex_pair(s, p2) {
                    Err(e) => Err(e),
                    Ok((b, p3)) => Ok((ValueV::ColorValue(Color { r, g, b, a: 255 }), p3)),
                },
            },
        }
    }
}

/// The value at `pos`: a digit starts a length, `#` a color, anything
/// else is read as a keyword.
pub open spec fn spec_parse_value(s: Seq<char>, pos: nat) -> Result<(ValueV, nat), StyleErrV> {
    if pos >= s.len() {
        Err(StyleErrV { offset: pos, reason: "expected a value"@ })
    } else {
        let c = s[pos as int];
        if is_digit(c) {
            spec_parse_length(s, pos)
        } else if c == '#' {
            spec_parse_color(s, pos)
        } else {
            let (k, p1) = spec_parse_identifier(s, pos);
            Ok((ValueV::Keyword(k), p1))
        }
    }
}

/// An `Ok` value parse lands at or after `pos`, within the input.
pub proof fn lemma_parse_value_bounds(s: Seq<char>, pos: nat)
    requires
        pos <= s.len(),
    ensures
        spec_parse_value(s, pos) matches Ok((v, p)) ==> pos <= p <= s.len(),
{
    lemma_run_end(s, pos, pred_of(CharTest::Ident));
    lemma_run_end(s, pos, pred_of(CharTest::Number));
    if pos < s.len() && is_digit(s[pos as int]) {
        let e = run_end(s, pos, pred_of(CharTest::Number));
        lemma_run_end(s, e, pred_of(CharTest::Ident));
    }
}

/// The declaration at `pos`: `name : value ;` with optional whitespace.
pub open spec fn spec_parse_declaration(s: Seq<char>, pos: nat) -> Result<
    (DeclarationV, nat),
    StyleErrV,
> {
    let (name, p1) = spec_parse_identifier(s, pos);
    let p2 = skip_ws(s, p1);
    if !starts_with_at(s, p2, ":"@) {
        Err(StyleErrV { offset: p2, reason: "expected ':'"@ })
    } else {
        let p3 = skip_ws(s, (p2 + 1) as nat);
        match spec_parse_value(s, p3) {
            Err(e) => Err(e),
            Ok((v, p4)) => {
                let p5 = skip_ws(s, p4);
                if !starts_with_at(s, p5, ";"@) {
                    Err(StyleErrV { offset: p5, reason: "expected ';'"@ })
                } else {
                    Ok((DeclarationV { name, value: v }, (p5 + ";"@.len()) as nat))
                }
            },
        }
    }
}

/// An `Ok` declaration parse lands strictly past `pos`, within the input.
pub proof fn lemma_parse_declaration_bounds(s: Seq<char>, pos: nat)
    requires
        pos <= s.len(),
    ensures
        spec_parse_declaration(s, pos) matches Ok((d, p)) ==> pos < p <= s.len(),
{
    reveal_strlit(":");
    reveal_strlit(";");
    lemma_run_end(s, pos, pred_of(CharTest::Ident));
    let (name, p1) = spec_parse_identifier(s, pos);
    lemma_run_end(s, p1, pred_of(CharTest::Space));
    let p2 = skip_ws(s, p1);
    if starts_with_at(s, p2, ":"@) {
        lemma_run_end(s, (p2 + 1) as nat, pred_of(CharTest::Space));
        let p3 = skip_ws(s, (p2 + 1) as nat);
        lemma_parse_value_bounds(s, p3);
        if let Ok((v, p4)) = spec_parse_value(s, p3) {
            lemma_run_end(s, p4, pred_of(CharTest::Space));
        }
    }
}

/// The declarations between `{` and `}`, appended to `acc`; the closing
/// brace is consumed.
pub open spec fn spec_parse_declarations(s: Seq<char>, pos: nat, acc: Seq<DeclarationV>) -> Result<
    (Seq<DeclarationV>, nat),
    StyleErrV,
>
    decreases s.len() - pos,
{
    if pos > s.len() {
        Err(StyleErrV { offset: pos, reason: "expected '}'"@ })
    } else {
        let p = skip_ws(s, pos);
        proof {
            lemma_run_end(s, pos, pred_of(CharTest::Space));
        }
        if p >= s.len() {
            Err(StyleErrV { offset: p, reason: "expected '}'"@ })
        } else if s[p as int] == '}' {
            Ok((acc, (p + 1) as nat))
        } else {
            match spec_parse_declaration(s, p) {
                Err(e) => Err(e),
                Ok((d, p2)) => {
                    proof {
                        lemma_parse_declaration_bounds(s, p);
                    }
                    spec_parse_declarations(s, p2, acc.push(d))
                },
            }
        }
    }
}

/// An `Ok` declaration-list parse lands within the input.
pub proof fn lemma_parse_declarations_bounds(s: Seq<char>, pos: nat, acc: Seq<DeclarationV>)
    requires
        pos <= s.len(),
    ensures
        spec_parse_declarations(s, pos, acc) matches Ok((ds, p)) ==> pos <= p <= s.len(),
    decreases s.len() - pos,
{
    let p = skip_ws(s, pos);
    lemma_run_end(s, pos, pred_of(CharTest::Space));
    if p < s.len() && s[p as int] != '}' {
        lemma_parse_declaration_bounds(s, p);
        if let Ok((d, p2)) = spec_parse_declaration(s, p) {
            lemma_parse_declarations_bounds(s, p2, acc.push(d));
        }
    }
}

/// The rule at `pos`: its selector list, then its declaration block.
pub open spec fn spec_parse_rule(s: Seq<char>, pos: nat) -> Result<(RuleV, nat), StyleErrV> {
    match spec_parse_selectors(s, pos, Seq::empty()) {
        Err(e) => Err(e),
        Ok((sels, p)) => {
            match spec_parse_declarations(s, (p + 1) as nat, Seq::empty()) {
                Err(e) => Err(e),
                Ok((ds, p2)) => Ok((RuleV { selectors: sels, declarations: ds }, p2)),
            }
        },
    }
}

/// An `Ok` rule parse lands strictly past `pos`, within the input.
pub proof fn lemma_parse_rule_bounds(s: Seq<char>, pos: nat)
    requires
        pos <= s.len(),
    ensures
        spec_parse_rule(s, pos) matches Ok((r, p)) ==> pos < p <= s.len(),
{
    lemma_parse_selectors_bounds(s, pos, Seq::empty());
    if let Ok((sels, p)) = spec_parse_selectors(s, pos, Seq::empty()) {
        lemma_parse_declarations_bounds(s, (p + 1) as nat, Seq::empty());
    }
}

/// The rules from `pos` to the end of input, appended to `acc`.
pub open spec fn spec_parse_rules(s: Seq<char>, pos: nat, acc: Seq<RuleV>) -> Result<
    (Seq<RuleV>, nat),
    StyleErrV,
>
    decreases s.len() - pos,
{
    if pos > s.len() {
        Ok((acc, pos))
    } else {
        let p = skip_ws(s, pos);
        proof {
            lemma_run_end(s, pos, pred_of(CharTest::Space));
        }
        if p >= s.len() {
            Ok((acc, p))
        } else {
            match spec_parse_rule(s, p) {
                Err(e) => Err(e),
                Ok((r, p2)) => {
                    proof {
                        lemma_parse_rule_bounds(s, p);
                    }
                    spec_parse_rules(s, p2, acc.push(r))
                },
            }
        }
    }
}

/// The whole stylesheet: every rule, in document order.
pub open spec fn spec_parse_css(s: Seq<char>) -> Result<Seq<RuleV>, StyleErrV> {
    match spec_parse_rules(s, 0, Seq::empty()) {
        Err(e) => Err(e),
        Ok((rs, p)) => Ok(rs),
    }
}

/// A prefix of `r` never holds more dots than all of `r`.
pub proof fn lemma_count_dots_mono(r: Seq<char>, i: int)
    requires
        0 <= i <= r.len(),
    ensures
        count_dots(r.take(i)) <= count_dots(r),
    decreases r.len() - i,
{
    if i < r.len() {
        lemma_count_dots_mono(r, i + 1);
        assert(r.take(i + 1).drop_last() =~= r.take(i));
    } else {
        assert(r.take(i) =~= r);
    }
}

/// The hexadecimal digit `c` reads as, if it is one.
fn hex_digit_val(c: char) -> (r: Option<u8>)
    ensures
        match r {
            Some(v) => is_hex(c) && v as nat == hex_val(c),
            None => !is_hex(c),
        },
{
    if '0' <= c && c <= '9' {
        Some((c as u32 - '0' as u32) as u8)
    } else if 'a' <= c && c <= 'f' {
        Some((c as u32 - 'a' as u32 + 10) as u8)
    } else if 'A' <= c && c <= 'F' {
        Some((c as u32 - 'A' as u32 + 10) as u8)
    } else {
        None
    }
}

impl Parser {
    /// The error "`why`, at the current position".
    fn serr(&self, why: &str) -> (r: StyleParseError)
        ensures
            r@ == (StyleErrV { offset: self.at(), reason: why@ }),
    {
        StyleParseError { offset: self.pos, reason: String::from_str(why) }
    }

    /// Parses a stylesheet identifier (possibly empty).
    pub fn parse_identifier(&mut self) -> (r: String)
        requires
            old(self).wf(),
        ensures
            final(self).wf(),
            final(self).src() == old(self).src(),
            (r@, final(self).at()) == spec_parse_identifier(old(self).src(), old(self).at()),
    {
        self.consume_while(CharTest::Ident)
    }

    /// Parses one simple selector: id, class, universal and tag parts in
    /// any order, until a character none of them can start.
    fn parse_simple_selector(&mut self) -> (r: SimpleSelector)
        requires
            old(self).wf(),
        ensures
            final(self).wf(),
            final(self).src() == old(self).src(),
            (r@, final(self).at()) == spec_parse_simple_selector(
                old(self).src(),
                old(self).at(),
                empty_selector(),
            ),
    {
        let mut selector = SimpleSelector { tag_name: None, id: None, class: Vec::new() };
        proof {
            assert(selector@.class =~= empty_selector().class);
        }
        loop
            invariant
                self.wf(),
                self.src() == old(self).src(),
                spec_parse_simple_selector(self.src(), old(self).at(), empty_selector())
                    == spec_parse_simple_selector(self.src(), self.at(), selector@),
            decreases self.src().len() - self.at(),
        {
            if self.eof() {
                return selector;
            }
            let c = self.next_char();
            let ghost p0 = self.at();
            let ghost acc0 = selector@;
            proof {
                lemma_run_end(self.src(), (p0 + 1) as nat, pred_of(CharTest::Ident));
            }
            if c == '#' {
                let _ = self.consume_char();
                let id = self.parse_identifier();
                selector.id = Some(id);
            } else if c == '.' {
                let _ = self.consume_char();
                let cl = self.parse_identifier();
                let ghost cls0 = crate::dom::strings_view(selector.class@);
                selector.class.push(cl);
                proof {
                    assert(crate::dom::strings_view(selector.class@) =~= cls0.push(cl@));
                }
            } else if c == '*' {
                let _ = self.consume_char();
            } else if char_test(CharTest::Ident, c) {
                let t = self.parse_identifier();
                selector.tag_name = Some(t);
            } else {
                return selector;
            }
        }
    }

    /// Parses the selector list of a rule, stopping at its `{`, and
    /// sorts it by descending specificity.
    fn parse_selectors(&mut self) -> (r: Result<Vec<Selector>, StyleParseError>)
        requires
            old(self).wf(),
        ensures
            final(self).wf(),
            final(self).src() == old(self).src(),
            match r {
                Ok(v) => spec_parse_selectors(old(self).src(), old(self).at(), Seq::empty())
                    == Ok::<_, StyleErrV>((selectors_view(v@), final(self).at())),
                Err(e) => spec_parse_selectors(old(self).src(), old(self).at(), Seq::empty())
                    == Err::<(Seq<SelectorV>, nat), _>(e@),
            },
    {
        let mut selectors: Vec<Selector> = Vec::new();
        proof {
            assert(selectors_view(selectors@) =~= Seq::<SelectorV>::empty());
        }
        loop
            invariant
                self.wf(),
                self.src() == old(self).src(),
                spec_parse_selectors(self.src(), old(self).at(), Seq::empty())
                    == spec_parse_selectors(self.src(), self.at(), selectors_view(selectors@)),
            decreases self.src().len() - self.at(),
        {
            let ghost p0 = self.at();
            proof {
                lemma_parse_simple_selector_bounds(self.src(), p0, empty_selector());
            }
            let sel = self.parse_simple_selector();
            let ghost acc0 = selectors_view(selectors@);
            selectors.push(Selector::Simple(sel));
            proof {
                assert(selectors_view(selectors@) =~= acc0.push(SelectorV::Simple(sel@)));
                lemma_run_end(self.src(), self.at(), pred_of(CharTest::Space));
            }
            self.consume_whitespace();
            if self.eof() {
                return Err(self.serr("unexpected end of selector list"));
            }
            let c = self.next_char();
            if c == ',' {
                let _ = self.consume_char();
                proof {
                    lemma_run_end(self.src(), self.at(), pred_of(CharTest::Space));
                }
                self.consume_whitespace();
            } else if c == '{' {
                let sorted = sort_selectors(selectors);
                return Ok(sorted);
            } else {
                return Err(self.serr("unexpected character in selector list"));
            }
        }
    }

    /// Parses a decimal number: the run of digits and dots at the
    /// cursor, read exactly.
    fn parse_number(&mut self) -> (r: Result<Decimal, StyleParseError>)
        requires
            old(self).wf(),
        ensures
            final(self).wf(),
            final(self).src() == old(self).src(),
            match r {
                Ok(d) => spec_parse_number(old(self).src(), old(self).at()) == Ok::<_, StyleErrV>(
                    (d, final(self).at()),
                ),
                Err(e) => spec_parse_number(old(self).src(), old(self).at()) == Err::<
                    (Decimal, nat),
                    _,
                >(e@),
            },
    {
        let ghost pos0 = self.at();
        let start = self.pos;
        proof {
            lemma_run_end(self.src(), pos0, pred_of(CharTest::Number));
        }
        let run = self.consume_while(CharTest::Number);
        let s = run.as_str();
        let n = s.unicode_len();
        let ghost rv = run@;
        proof {
            assert(forall|k: int| 0 <= k < rv.len() ==> (is_digit(rv[k]) || rv[k] == '.')) by {
                assert(forall|k: int|
                    0 <= k < rv.len() ==> rv[k] == old(self).src()[pos0 + k]
                        && pred_of(CharTest::Number)(old(self).src()[pos0 + k]));
            }
        }
        let mut mantissa: u64 = 0;
        let mut scale: usize = 0;
        let mut digits: usize = 0;
        let mut seen_dot = false;
        let ghost mut dotpos: int = 0;
        let mut i: usize = 0;
        while i < n
            invariant
                self.wf(),
                self.src() == old(self).src(),
                self.at() == run_end(old(self).src(), pos0, pred_of(CharTest::Number)),
                pos0 == old(self).at(),
                start as nat == pos0,
                rv == old(self).src().subrange(pos0 as int, self.at() as int),
                i <= n,
                n == rv.len(),
                rv == run@,
                s@ == rv,
                run@.len() <= usize::MAX,
                forall|k: int| 0 <= k < rv.len() ==> (is_digit(rv[k]) || rv[k] == '.'),
                mantissa as nat == num_value(rv.take(i as int)),
                digits as nat == count_digits(rv.take(i as int)),
                digits <= i,
                seen_dot ==> 0 <= dotpos < i && rv[dotpos] == '.' && (forall|k: int|
                    0 <= k < i && k != dotpos ==> rv[k] != '.') && count_dots(rv.take(i as int))
                    == 1 && scale == i - 1 - dotpos,
                !seen_dot ==> (forall|k: int| 0 <= k < i ==> rv[k] != '.') && count_dots(
                    rv.take(i as int),
                ) == 0 && scale == 0,
            decreases n - i,
        {
            let c = s.get_char(i);
            proof {
                assert(rv.take(i + 1).drop_last() =~= rv.take(i as int));
                assert(rv.take(i + 1).last() == rv[i as int]);
            }
            if c == '.' {
                if seen_dot {
                    proof {
                        lemma_count_dots_mono(rv, i + 1);
                    }
                    return Err(
                        StyleParseError {
                            offset: start,
                            reason: String::from_str("malformed number"),
                        },
                    );
                }
                seen_dot = true;
                proof {
                    dotpos = i as int;
                }
            } else {
                proof {
                    assert(is_digit(rv[i as int]));
                }
                let d: u64 = (c as u32 - '0' as u32) as u64;
                if mantissa > (u64::MAX - d) / 10 {
                    proof {
                        assert(mantissa * 10 + d > u64::MAX) by (nonlinear_arith)
                            requires
                                mantissa > (u64::MAX - d) / 10,
                                d <= 9,
                        ;
                        lemma_num_value_mono(rv, i + 1);
                    }
                    return Err(
                        StyleParseError {
                            offset: start,
                            reason: String::from_str("malformed number"),
                        },
                    );
                }
                proof {
                    assert(mantissa * 10 + d <= u64::MAX) by (nonlinear_arith)
                        requires
                            mantissa <= (u64::MAX - d) / 10,
                            d <= 9,
                    ;
                }
                mantissa = mantissa * 10 + d;
                digits = digits + 1;
                if seen_dot {
                    scale = scale + 1;
                }
            }
            i += 1;
        }
        proof {
            assert(rv.take(n as int) =~= rv);
        }
        if digits == 0 {
            return Err(
                StyleParseError { offset: start, reason: String::from_str("malformed number") },
            );
        }
        proof {
            if seen_dot {
                lemma_frac_len_at(rv, dotpos);
            } else {
                lemma_frac_len_none(rv);
            }
        }
        Ok(Decimal { mantissa, scale })
    }

    /// Parses a length unit; only `px` (case lax) is recognized.
    fn parse_unit(&mut self) -> (r: Result<Unit, StyleParseError>)
        requires
            old(self).wf(),
        ensures
            final(self).wf(),
            final(self).src() == old(self).src(),
            match r {
                Ok(u) => spec_parse_unit(old(self).src(), old(self).at()) == Ok::<_, StyleErrV>(
                    (u, final(self).at()),
                ),
                Err(e) => spec_parse_unit(old(self).src(), old(self).at()) == Err::<
                    (Unit, nat),
                    _,
                >(e@),
            },
    {
        let start = self.pos;
        let u = self.parse_identifier();
        let us = u.as_str();
        if us.unicode_len() == 2 {
            let c0 = us.get_char(0);
            let c1 = us.get_char(1);
            if (c0 == 'p' || c0 == 'P') && (c1 == 'x' || c1 == 'X') {
                return Ok(Unit::Px);
            }
        }
        Err(StyleParseError { offset: start, reason: String::from_str("unrecognized unit") })
    }

    /// Parses a length: a number, then its unit.
    fn parse_length(&mut self) -> (r: Result<Value, StyleParseError>)
        requires
            old(self).wf(),
        ensures
            final(self).wf(),
            final(self).src() == old(self).src(),
            match r {
                Ok(v) => spec_parse_length(old(self).src(), old(self).at()) == Ok::<_, StyleErrV>(
                    (v@, final(self).at()),
                ),
                Err(e) => spec_parse_length(old(self).src(), old(self).at()) == Err::<
                    (ValueV, nat),
                    _,
                >(e@),
            },
    {
        let d = match self.parse_number() {
            Err(e) => {
                return Err(e);
            },
            Ok(d) => d,
        };
        match self.parse_unit() {
            Err(e) => Err(e),
            Ok(u) => Ok(Value::Length(d, u)),
        }
    }

    /// Parses one color channel: exactly two hexadecimal digits.
    pub fn parse_hex_pair(&mut self) -> (r: Result<u8, StyleParseError>)
        requires
            old(self).wf(),
        ensures
            final(self).wf(),
            final(self).src() == old(self).src(),
            match r {
                Ok(v) => spec_parse_hex_pair(old(self).src(), old(self).at()) == Ok::<
                    _,
                    StyleErrV,
                >((v, final(self).at())),
                Err(e) => spec_parse_hex_pair(old(self).src(), old(self).at()) == Err::<
                    (u8, nat),
                    _,
                >(e@),
            },
    {
        let len = self.input.as_str().unicode_len();
        if len - self.pos < 2 {
            return Err(self.serr("malformed hex pair"));
        }
        let c1 = self.input.as_str().get_char(self.pos);
        let c2 = self.input.as_str().get_char(self.pos + 1);
        match (hex_digit_val(c1), hex_digit_val(c2)) {
            (Some(h1), Some(h2)) => {
                self.pos = self.pos + 2;
                Ok(h1 * 16 + h2)
            },
            _ => Err(self.serr("malformed hex pair")),
        }
    }

    /// Parses a color literal: `#` and three hex pairs; alpha is full.
    fn parse_color(&mut self) -> (r: Result<Value, StyleParseError>)
        requires
            old(self).wf(),
        ensures
            final(self).wf(),
            final(self).src() == old(self).src(),
            match r {
                Ok(v) => spec_parse_color(old(self).src(), old(self).at()) == Ok::<_, StyleErrV>(
                    (v@, final(self).at()),
                ),
                Err(e) => spec_parse_color(old(self).src(), old(self).at()) == Err::<
                    (ValueV, nat),
                    _,
                >(e@),
            },
    {
        proof {
            reveal_strlit("#");
            assert("#"@.len() == 1);
            assert("#"@[0] == '#');
            if old(self).at() < old(self).src().len() && old(self).src()[old(self).at() as int]
                == '#' {
                assert(old(self).src().subrange(
                    old(self).at() as int,
                    old(self).at() as int + 1,
                ) =~= "#"@);
            }
        }
        if self.eof() {
            return Err(self.serr("expected '#'"));
        }
        if self.next_char() != '#' {
            return Err(self.serr("expected '#'"));
        }
        let _ = self.consume_char();
        let r = match self.parse_hex_pair() {
            Err(e) => {
                return Err(e);
            },
            Ok(v) => v,
        };
        let g = match self.parse_hex_pair() {
            Err(e) => {
                return Err(e);
            },
            Ok(v) => v,
        };
        let b = match self.parse_hex_pair() {
            Err(e) => {
                return Err(e);
            },
            Ok(v) => v,
        };
        Ok(Value::ColorValue(Color { r, g, b, a: 255 }))
    }

    /// Parses a declaration value: length, color or keyword.
    fn parse_value(&mut self) -> (r: Result<Value, StyleParseError>)
        requires
            old(self).wf(),
        ensures
            final(self).wf(),
            final(self).src() == old(self).src(),
            match r {
                Ok(v) => spec_parse_value(old(self).src(), old(self).at()) == Ok::<_, StyleErrV>(
                    (v@, final(self).at()),
                ),
                Err(e) => spec_parse_value(old(self).src(), old(self).at()) == Err::<
                    (ValueV, nat),
                    _,
                >(e@),
            },
    {
        if self.eof() {
            return Err(self.serr("expected a value"));
        }
        let c = self.next_char();
        if '0' <= c && c <= '9' {
            self.parse_length()
        } else if c == '#' {
            self.parse_color()
        } else {
            let k = self.parse_identifier();
            Ok(Value::Keyword(k))
        }
    }

    /// Parses one declaration: `name : value ;`.
    pub fn parse_declaration(&mut self) -> (r: Result<Declaration, StyleParseError>)
        requires
            old(self).wf(),
        ensures
            final(self).wf(),
            final(self).src() == old(self).src(),
            match r {
                Ok(d) => spec_parse_declaration(old(self).src(), old(self).at()) == Ok::<
                    _,
                    StyleErrV,
                >((d@, final(self).at())),
                Err(e) => spec_parse_declaration(old(self).src(), old(self).at()) == Err::<
                    (DeclarationV, nat),
                    _,
                >(e@),
            },
    {
        let name = self.parse_identifier();
        self.consume_whitespace();
        proof {
            reveal_strlit(":");
            assert(":"@.len() == 1);
            assert(":"@[0] == ':');
            if self.at() < self.src().len() && self.src()[self.at() as int] == ':' {
                assert(self.src().subrange(self.at() as int, self.at() as int + 1) =~= ":"@);
            }
        }
        if self.eof() {
            return Err(self.serr("expected ':'"));
        }
        if self.next_char() != ':' {
            return Err(self.serr("expected ':'"));
        }
        let _ = self.consume_char();
        self.consume_whitespace();
        let value = match self.parse_value() {
            Err(e) => {
                return Err(e);
            },
            Ok(v) => v,
        };
        self.consume_whitespace();
        proof {
            reveal_strlit(";");
            assert(";"@.len() == 1);
            assert(";"@[0] == ';');
            if self.at() < self.src().len() && self.src()[self.at() as int] == ';' {
                assert(self.src().subrange(self.at() as int, self.at() as int + 1) =~= ";"@);
            }
        }
        if self.eof() {
            return Err(self.serr("expected ';'"));
        }
        if self.next_char() != ';' {
            return Err(self.serr("expected ';'"));
        }
        let _ = self.consume_char();
        Ok(Declaration { name, value })
    }

    /// Parses the declaration block after a `{`, consuming the `}`.
    fn parse_declarations(&mut self) -> (r: Result<Vec<Declaration>, StyleParseError>)
        requires
            old(self).wf(),
        ensures
            final(self).wf(),
            final(self).src() == old(self).src(),
            match r {
                Ok(ds) => spec_parse_declarations(old(self).src(), old(self).at(), Seq::empty())
                    == Ok::<_, StyleErrV>((decls_view(ds@), final(self).at())),
                Err(e) => spec_parse_declarations(old(self).src(), old(self).at(), Seq::empty())
                    == Err::<(Seq<DeclarationV>, nat), _>(e@),
            },
    {
        let mut declarations: Vec<Declaration> = Vec::new();
        proof {
            assert(decls_view(declarations@) =~= Seq::<DeclarationV>::empty());
        }
        loop
            invariant
                self.wf(),
                self.src() == old(self).src(),
                spec_parse_declarations(self.src(), old(self).at(), Seq::empty())
                    == spec_parse_declarations(self.src(), self.at(), decls_view(declarations@)),
            decreases self.src().len() - self.at(),
        {
            let ghost p0 = self.at();
            proof {
                lemma_run_end(self.src(), p0, pred_of(CharTest::Space));
            }
            self.consume_whitespace();
            if self.eof() {
                return Err(self.serr("expected '}'"));
            }
            if self.next_char() == '}' {
                let _ = self.consume_char();
                return Ok(declarations);
            }
            let ghost p = self.at();
            let ghost acc0 = decls_view(declarations@);
            match self.parse_declaration() {
                Err(e) => {
                    return Err(e);
                },
                Ok(d) => {
                    proof {
                        lemma_parse_declaration_bounds(self.src(), p);
                    }
                    declarations.push(d);
                    proof {
                        assert(decls_view(declarations@) =~= acc0.push(d@));
                    }
                },
            }
        }
    }

    /// Parses one rule: selectors, `{`, declarations, `}`.
    fn parse_rule(&mut self) -> (r: Result<Rule, StyleParseError>)
        requires
            old(self).wf(),
        ensures
            final(self).wf(),
            final(self).src() == old(self).src(),
            match r {
                Ok(rule) => spec_parse_rule(old(self).src(), old(self).at()) == Ok::<_, StyleErrV>(
                    (rule@, final(self).at()),
                ),
                Err(e) => spec_parse_rule(old(self).src(), old(self).at()) == Err::<
                    (RuleV, nat),
                    _,
                >(e@),
            },
    {
        let ghost p0 = self.at();
        let selectors = match self.parse_selectors() {
            Err(e) => {
                return Err(e);
            },
            Ok(v) => v,
        };
        proof {
            lemma_parse_selectors_bounds(self.src(), p0, Seq::empty());
        }
        let _ = self.consume_char();
        let declarations = match self.parse_declarations() {
            Err(e) => {
                return Err(e);
            },
            Ok(v) => v,
        };
        Ok(Rule { selectors, declarations })
    }

    /// Parses rules until the end of input.
    fn parse_rules(&mut self) -> (r: Result<Vec<Rule>, StyleParseError>)
        requires
            old(self).wf(),
        ensures
            final(self).wf(),
            final(self).src() == old(self).src(),
            match r {
                Ok(rs) => spec_parse_rules(old(self).src(), old(self).at(), Seq::empty()) == Ok::<
                    _,
                    StyleErrV,
                >((rules_view(rs@), final(self).at())),
                Err(e) => spec_parse_rules(old(self).src(), old(self).at(), Seq::empty()) == Err::<
                    (Seq<RuleV>, nat),
                    _,
                >(e@),
            },
    {
        let mut rules: Vec<Rule> = Vec::new();
        proof {
            assert(rules_view(rules@) =~= Seq::<RuleV>::empty());
        }
        loop
            invariant
                self.wf(),
                self.src() == old(self).src(),
                spec_parse_rules(self.src(), old(self).at(), Seq::empty()) == spec_parse_rules(
                    self.src(),
                    self.at(),
                    rules_view(rules@),
                ),
            decreases self.src().len() - self.at(),
        {
            let ghost p0 = self.at();
            proof {
                lemma_run_end(self.src(), p0, pred_of(CharTest::Space));
            }
            self.consume_whitespace();
            if self.eof() {
                return Ok(rules);
            }
            let ghost p = self.at();
            let ghost acc0 = rules_view(rules@);
            match self.parse_rule() {
                Err(e) => {
                    return Err(e);
                },
                Ok(rule) => {
                    proof {
                        lemma_parse_rule_bounds(self.src(), p);
                    }
                    rules.push(rule);
                    proof {
                        assert(rules_view(rules@) =~= acc0.push(rule@));
                    }
                },
            }
        }
    }

    /// Parses a whole stylesheet: its rules, in document order.
    pub fn parse_css(source: String) -> (r: Result<Stylesheet, StyleParseError>)
        ensures
            match r {
                Ok(sheet) => spec_parse_css(source@) == Ok::<_, StyleErrV>(sheet@),
                Err(e) => spec_parse_css(source@) == Err::<Seq<RuleV>, _>(e@),
            },
    {
        let mut parser = Parser::new(source);
        match parser.parse_rules() {
            Err(e) => Err(e),
            Ok(rules) => Ok(Stylesheet { rules }),
        }
    }
}

} // verus!
