//! The node model: the tree that the markup parser produces and that the
//! style resolver reads. A node is a text run, an element with an
//! attribute mapping, or a comment, together with its ordered children.

use vstd::prelude::*;

verus! {

use crate::strutil::{run_end, lemma_run_end, lemma_run_end_exact, str_eq};
use vstd::string::StrSliceExecFns;

/// Spec-level picture of an attribute list: a mapping from attribute
/// names to values, later entries overriding earlier ones.
pub open spec fn map_of(es: Seq<(String, String)>) -> Map<Seq<char>, Seq<char>>
    decreases es.len(),
{
    if es.len() == 0 {
        Map::empty()
    } else {
        map_of(es.drop_last()).insert(es.last().0@, es.last().1@)
    }
}

/// A name is in the mapping exactly when some entry carries it.
pub proof fn lemma_map_of_domain(es: Seq<(String, String)>, k: Seq<char>)
    ensures
        map_of(es).contains_key(k) <==> exists|i: int| 0 <= i < es.len() && es[i].0@ == k,
    decreases es.len(),
{
    if es.len() > 0 {
        lemma_map_of_domain(es.drop_last(), k);
        if map_of(es).contains_key(k) {
            if es.last().0@ == k {
                assert(es[es.len() - 1].0@ == k);
            }
        }
        if exists|i: int| 0 <= i < es.len() && es[i].0@ == k {
            let i = choose|i: int| 0 <= i < es.len() && es[i].0@ == k;
            if i < es.len() - 1 {
                assert(es.drop_last()[i].0@ == k);
            }
        }
    }
}

/// The value mapped to a name is the one of its last entry.
pub proof fn lemma_map_of_last(es: Seq<(String, String)>, i: int, k: Seq<char>)
    requires
        0 <= i < es.len(),
        es[i].0@ == k,
        forall|j: int| i < j < es.len() ==> es[j].0@ != k,
    ensures
        map_of(es).contains_key(k),
        map_of(es)[k] == es[i].1@,
    decreases es.len(),
{
    if i == es.len() - 1 {
    } else {
        assert(es.drop_last()[i] == es[i]);
        lemma_map_of_last(es.drop_last(), i, k);
    }
}

/// Two entry lists that agree character for character give the same mapping.
pub proof fn lemma_map_of_congruent(a: Seq<(String, String)>, b: Seq<(String, String)>)
    requires
        a.len() == b.len(),
        forall|i: int| 0 <= i < a.len() ==> a[i].0@ == b[i].0@ && a[i].1@ == b[i].1@,
    ensures
        map_of(a) == map_of(b),
    decreases a.len(),
{
    if a.len() > 0 {
        lemma_map_of_congruent(a.drop_last(), b.drop_last());
    }
}

/// An attribute list: names paired with values, in the order they were
/// set. Its view is the mapping where the last entry for a name wins.
pub struct AttrMap {
    entries: Vec<(String, String)>,
}

impl View for AttrMap {
    type V = Map<Seq<char>, Seq<char>>;

    closed spec fn view(&self) -> Map<Seq<char>, Seq<char>> {
        map_of(self.entries@)
    }
}

impl AttrMap {
    /// The empty attribute mapping.
    pub fn new() -> (r: AttrMap)
        ensures
            r@ == Map::<Seq<char>, Seq<char>>::empty(),
    {
        AttrMap { entries: Vec::new() }
    }

    /// Sets `name` to `value`, replacing any earlier value for `name`.
    pub fn insert(&mut self, name: String, value: String)
        ensures
            final(self)@ == old(self)@.insert(name@, value@),
    {
        self.entries.push((name, value));
        proof {
            assert(self.entries@.drop_last() == old(self).entries@);
        }
    }

    /// Looks a name up in the mapping.
    pub fn get(&self, name: &str) -> (r: Option<&String>)
        ensures
            match r {
                Some(v) => self@.contains_key(name@) && v@ == self@[name@],
                None => !self@.contains_key(name@),
            },
    {
        let n = self.entries.len();
        let mut i: usize = n;
        while i > 0
            invariant
                i <= n,
                n == self.entries@.len(),
                forall|j: int| i <= j < n ==> self.entries@[j].0@ != name@,
            decreases i,
        {
            i = i - 1;
            if str_eq(self.entries[i].0.as_str(), name) {
                proof {
                    lemma_map_of_last(self.entries@, i as int, name@);
                }
                return Some(&self.entries[i].1);
            }
        }
        proof {
            lemma_map_of_domain(self.entries@, name@);
        }
        None
    }

    /// A copy of the mapping with the same contents.
    pub fn dup(&self) -> (r: AttrMap)
        ensures
            r@ == self@,
    {
        let n = self.entries.len();
        let mut out: Vec<(String, String)> = Vec::new();
        let mut i: usize = 0;
        while i < n
            invariant
                i <= n,
                n == self.entries@.len(),
                out@.len() == i,
                forall|j: int| 0 <= j < i ==> out@[j].0@ == self.entries@[j].0@
                    && out@[j].1@ == self.entries@[j].1@,
            decreases n - i,
        {
            let name = self.entries[i].0.clone();
            let value = self.entries[i].1.clone();
            out.push((name, value));
            i += 1;
        }
        proof {
            lemma_map_of_congruent(out@, self.entries@);
        }
        AttrMap { entries: out }
    }
}

/// The class tokens found in `s` at or after `from`: the maximal runs of
/// non-space characters, collected as a set.
pub open spec fn class_tokens_from(s: Seq<char>, from: nat) -> Set<Seq<char>>
    decreases s.len() - from,
{
    if from >= s.len() {
        Set::empty()
    } else if s[from as int] == ' ' {
        class_tokens_from(s, (from + 1) as nat)
    } else {
        let e = run_end(s, from, |c: char| c != ' ');
        proof {
            lemma_run_end(s, (from + 1) as nat, |c: char| c != ' ');
        }
        class_tokens_from(s, e).insert(s.subrange(from as int, e as int))
    }
}

/// The set of class tokens of a class-attribute value. Runs of spaces
/// separate tokens; the empty token never appears.
pub open spec fn class_tokens(s: Seq<char>) -> Set<Seq<char>> {
    class_tokens_from(s, 0)
}

/// The views of a sequence of strings, in order.
pub open spec fn strings_view(ss: Seq<String>) -> Seq<Seq<char>> {
    ss.map_values(|s: String| s@)
}

/// Does some string of `v` read as `t`?
fn contains_str(v: &Vec<String>, t: &str) -> (r: bool)
    ensures
        r == strings_view(v@).contains(t@),
{
    let n = v.len();
    let mut i: usize = 0;
    while i < n
        invariant
            i <= n,
            n == v@.len(),
            forall|j: int| 0 <= j < i ==> strings_view(v@)[j] != t@,
        decreases n - i,
    {
        if str_eq(v[i].as_str(), t) {
            assert(strings_view(v@)[i as int] == t@);
            return true;
        }
        i += 1;
    }
    false
}

/// Spec-level picture of an element: its tag name and attribute mapping.
pub struct ElementDataV {
    pub tag_name: Seq<char>,
    pub attrs: Map<Seq<char>, Seq<char>>,
}

/// Spec-level picture of a node variant.
pub enum NodeTypeV {
    Text(Seq<char>),
    Element(ElementDataV),
    Comment(Seq<char>),
}

/// Spec-level picture of a node: its variant and its ordered children.
pub struct NodeV {
    pub node_type: NodeTypeV,
    pub children: Seq<NodeV>,
}

/// An element: a tag name and its attributes.
pub struct ElementData {
    pub tag_name: String,
    pub attrs: AttrMap,
}

impl View for ElementData {
    type V = ElementDataV;

    open spec fn view(&self) -> ElementDataV {
        ElementDataV { tag_name: self.tag_name@, attrs: self.attrs@ }
    }
}

/// The class set of a spec-level element: its `class` attribute split
/// into tokens, or the empty set when the attribute is absent.
pub open spec fn classes_of(e: ElementDataV) -> Set<Seq<char>> {
    if e.attrs.contains_key("class"@) {
        class_tokens(e.attrs["class"@])
    } else {
        Set::empty()
    }
}

impl ElementData {
    /// The value of the `id` attribute, if the element has one.
    pub fn id(&self) -> (r: Option<&String>)
        ensures
            match r {
                Some(v) => self@.attrs.contains_key("id"@) && v@ == self@.attrs["id"@],
                None => !self@.attrs.contains_key("id"@),
            },
    {
        self.attrs.get("id")
    }

    /// The element's class tokens: the `class` attribute value split on
    /// runs of spaces, each token listed once; empty when the attribute
    /// is absent.
    pub fn classes(&self) -> (r: Vec<String>)
        ensures
            strings_view(r@).to_set() == classes_of(self@),
            forall|i: int, j: int|
                0 <= i < j < r@.len() ==> strings_view(r@)[i] != strings_view(r@)[j],
    {
        let mut out: Vec<String> = Vec::new();
        match self.attrs.get("class") {
            None => {
                proof {
                    assert(strings_view(out@).to_set() =~= classes_of(self@));
                }
                out
            },
            Some(v) => {
                let s = v.as_str();
                let ghost p = |c: char| c != ' ';
                let n = s.unicode_len();
                let mut i: usize = 0;
                while i < n
                    invariant
                        i <= n,
                        n == s@.len(),
                        s@ == self@.attrs["class"@],
                        self@.attrs.contains_key("class"@),
                        p == (|c: char| c != ' '),
                        class_tokens(s@) == strings_view(out@).to_set().union(
                            class_tokens_from(s@, i as nat),
                        ),
                        forall|a: int, b: int|
                            0 <= a < b < out@.len() ==> strings_view(out@)[a] != strings_view(
                                out@,
                            )[b],
                    decreases n - i,
                {
                    if s.get_char(i) == ' ' {
                        i += 1;
                    } else {
                        let start = i;
                        i += 1;
                        while i < n && s.get_char(i) != ' '
                            invariant
                                start < i <= n,
                                n == s@.len(),
                                forall|k: int| start <= k < i ==> s@[k] != ' ',
                            decreases n - i,
                        {
                            i += 1;
                        }
                        proof {
                            lemma_run_end_exact(s@, start as nat, i as nat, p);
                        }
                        let tok = s.substring_char(start, i).to_owned();
                        let ghost old_out = out@;
                        if !contains_str(&out, tok.as_str()) {
                            out.push(tok);
                            proof {
                                assert(strings_view(out@) =~= strings_view(old_out).push(tok@));
                                strings_view(old_out).lemma_push_to_set_commute(tok@);
                                assert(strings_view(out@).to_set() == strings_view(
                                    old_out,
                                ).to_set().insert(tok@));
                                assert(class_tokens(s@) =~= strings_view(out@).to_set().union(
                                    class_tokens_from(s@, i as nat),
                                ));
                            }
                        } else {
                            proof {
                                assert(strings_view(old_out).to_set().contains(tok@));
                                assert(class_tokens(s@) =~= strings_view(out@).to_set().union(
                                    class_tokens_from(s@, i as nat),
                                ));
                            }
                        }
                    }
                }
                proof {
                    assert(class_tokens_from(s@, n as nat) =~= Set::<Seq<char>>::empty());
                    assert(strings_view(out@).to_set() =~= class_tokens(s@));
                }
                out
            },
        }
    }

    /// A copy of the element with the same tag name and attributes.
    pub fn dup(&self) -> (r: ElementData)
        ensures
            r@ == self@,
    {
        ElementData { tag_name: self.tag_name.clone(), attrs: self.attrs.dup() }
    }
}

/// The variants a node can take.
pub enum NodeType {
    Text(String),
    Element(ElementData),
    Comment(String),
}

impl View for NodeType {
    type V = NodeTypeV;

    open spec fn view(&self) -> NodeTypeV {
        match self {
            NodeType::Text(s) => NodeTypeV::Text(s@),
            NodeType::Element(e) => NodeTypeV::Element(e@),
            NodeType::Comment(s) => NodeTypeV::Comment(s@),
        }
    }
}

impl NodeType {
    /// A copy of the variant with the same contents.
    pub fn dup(&self) -> (r: NodeType)
        ensures
            r@ == self@,
    {
        match self {
            NodeType::Text(s) => NodeType::Text(s.clone()),
            NodeType::Element(e) => NodeType::Element(e.dup()),
            NodeType::Comment(s) => NodeType::Comment(s.clone()),
        }
    }
}

/// A node of the document tree: a variant plus owned, ordered children.
pub struct Node {
    pub children: Vec<Node>,
    pub node_type: NodeType,
}

impl View for Node {
    type V = NodeV;

    open spec fn view(&self) -> NodeV
        decreases self,
    {
        NodeV {
            node_type: self.node_type@,
            children: Seq::new(
                self.children@.len(),
                |i: int|
                    if 0 <= i < self.children@.len() {
                        self.children@[i]@
                    } else {
                        NodeV { node_type: NodeTypeV::Text(Seq::empty()), children: Seq::empty() }
                    },
            ),
        }
    }
}

/// The views of a sequence of nodes, in order.
pub open spec fn nodes_view(ns: Seq<Node>) -> Seq<NodeV> {
    ns.map_values(|c: Node| c@)
}

/// A childless text node.
pub fn text(data: String) -> (r: Node)
    ensures
        r@ == (NodeV { node_type: NodeTypeV::Text(data@), children: Seq::<NodeV>::empty() }),
{
    let r = Node { children: Vec::new(), node_type: NodeType::Text(data) };
    proof {
        assert(r@.children =~= Seq::<NodeV>::empty());
    }
    r
}

/// An element node with the given tag, attributes and children.
pub fn elem(tag_name: String, attrs: AttrMap, children: Vec<Node>) -> (r: Node)
    ensures
        r@ == (NodeV {
            node_type: NodeTypeV::Element(ElementDataV { tag_name: tag_name@, attrs: attrs@ }),
            children: nodes_view(children@),
        }),
{
    let r = Node { children, node_type: NodeType::Element(ElementData { tag_name, attrs }) };
    proof {
        assert(r@.children =~= nodes_view(r.children@));
    }
    r
}

/// A childless comment node. Comments are kept distinct from text runs:
/// downstream stages treat both as unstyled, but a renderer can tell
/// them apart.
pub fn comm(data: String) -> (r: Node)
    ensures
        r@ == (NodeV { node_type: NodeTypeV::Comment(data@), children: Seq::<NodeV>::empty() }),
{
    let r = Node { children: Vec::new(), node_type: NodeType::Comment(data) };
    proof {
        assert(r@.children =~= Seq::<NodeV>::empty());
    }
    r
}

} // verus!
