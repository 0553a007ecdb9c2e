//! The style resolver: matches every stylesheet rule against every
//! element, resolves the cascade by specificity with document order
//! breaking ties, and mirrors the node tree as a styled tree.

use vstd::prelude::*;

verus! {

use crate::dom::{classes_of, strings_view, ElementData, Node, NodeType, NodeTypeV, NodeV};
use crate::parser::{
    selectors_view,
    spec3,
    spec_lt,
    spec_specificity,
    Rule,
    RuleV,
    SelectorV,
    SimpleSelector,
    SimpleSelectorV,
    Selector,
    Specificity,
    Stylesheet,
    Value,
    ValueV,
    specificity_lt,
};
use crate::strutil::str_eq;

/// Spec-level picture of a property list: a mapping from property names
/// to values, later entries overriding earlier ones.
pub open spec fn pmap_of(es: Seq<(String, Value)>) -> Map<Seq<char>, ValueV>
    decreases es.len(),
{
    if es.len() == 0 {
        Map::empty()
    } else {
        pmap_of(es.drop_last()).insert(es.last().0@, es.last().1@)
    }
}

/// A name is in the property mapping exactly when some entry carries it.
proof fn lemma_pmap_of_domain(es: Seq<(String, Value)>, k: Seq<char>)
    ensures
        pmap_of(es).contains_key(k) <==> exists|i: int| 0 <= i < es.len() && es[i].0@ == k,
    decreases es.len(),
{
    if es.len() > 0 {
        lemma_pmap_of_domain(es.drop_last(), k);
        if pmap_of(es).contains_key(k) {
            if es.last().0@ == k {
                assert(es[es.len() - 1].0@ == k);
            }
        }
        if exists|i: int| 0 <= i < es.len() && es[i].0@ == k {
            let i = choose|i: int| 0 <= i < es.len() && es[i].0@ == k;
            if i < es.len() - 1 {
                assert(es.drop_last()[i].0@ == k);
            }
        }
    }
}

/// The value mapped to a name is the one of its last entry.
proof fn lemma_pmap_of_last(es: Seq<(String, Value)>, i: int, k: Seq<char>)
    requires
        0 <= i < es.len(),
        es[i].0@ == k,
        forall|j: int| i < j < es.len() ==> es[j].0@ != k,
    ensures
        pmap_of(es).contains_key(k),
        pmap_of(es)[k] == es[i].1@,
    decreases es.len(),
{
    if i == es.len() - 1 {
    } else {
        assert(es.drop_last()[i] == es[i]);
        lemma_pmap_of_last(es.drop_last(), i, k);
    }
}

/// A resolved property list: names paired with values in the order they
/// were applied. Its view is the mapping where the last entry for a
/// name wins.
pub struct PropertyMap {
    entries: Vec<(String, Value)>,
}

impl View for PropertyMap {
    type V = Map<Seq<char>, ValueV>;

    closed spec fn view(&self) -> Map<Seq<char>, ValueV> {
        pmap_of(self.entries@)
    }
}

impl PropertyMap {
    /// The empty property mapping.
    pub fn new() -> (r: PropertyMap)
        ensures
            r@ == Map::<Seq<char>, ValueV>::empty(),
    {
        PropertyMap { entries: Vec::new() }
    }

    /// Sets `name` to `value`, replacing any earlier value for `name`.
    pub fn insert(&mut self, name: String, value: Value)
        ensures
            final(self)@ == old(self)@.insert(name@, value@),
    {
        self.entries.push((name, value));
        proof {
            assert(self.entries@.drop_last() == old(self).entries@);
        }
    }

    /// Looks a property up in the mapping.
    pub fn get(&self, name: &str) -> (r: Option<&Value>)
        ensures
            match r {
                Some(v) => self@.contains_key(name@) && v@ == self@[name@],
                None => !self@.contains_key(name@),
            },
    {
        let n = self.entries.len();
        let mut i: usize = n;
        while i > 0
            invariant
                i <= n,
                n == self.entries@.len(),
                forall|j: int| i <= j < n ==> self.entries@[j].0@ != name@,
            decreases i,
        {
            i = i - 1;
            if str_eq(self.entries[i].0.as_str(), name) {
                proof {
                    lemma_pmap_of_last(self.entries@, i as int, name@);
                }
                return Some(&self.entries[i].1);
            }
        }
        proof {
            lemma_pmap_of_domain(self.entries@, name@);
        }
        None
    }

    /// A copy of the mapping with the same contents.
    pub fn dup(&self) -> (r: PropertyMap)
        ensures
            r@ == self@,
    {
        let n = self.entries.len();
        let mut out: Vec<(String, Value)> = Vec::new();
        let mut i: usize = 0;
        while i < n
            invariant
                i <= n,
                n == self.entries@.len(),
                out@.len() == i,
                forall|j: int| 0 <= j < i ==> out@[j].0@ == self.entries@[j].0@
                    && out@[j].1@ == self.entries@[j].1@,
            decreases n - i,
        {
            let name = self.entries[i].0.clone();
            let value = self.entries[i].1.dup();
            out.push((name, value));
            i += 1;
        }
        proof {
            lemma_pmap_congruent(out@, self.entries@);
        }
        PropertyMap { entries: out }
    }
}

/// Two entry lists that agree entry for entry give the same mapping.
proof fn lemma_pmap_congruent(a: Seq<(String, Value)>, b: Seq<(String, Value)>)
    requires
        a.len() == b.len(),
        forall|i: int| 0 <= i < a.len() ==> a[i].0@ == b[i].0@ && a[i].1@ == b[i].1@,
    ensures
        pmap_of(a) == pmap_of(b),
    decreases a.len(),
{
    if a.len() > 0 {
        lemma_pmap_congruent(a.drop_last(), b.drop_last());
    }
}

/// Does a simple selector match an element? Every condition it carries
/// must hold; absent conditions hold vacuously.
pub open spec fn spec_matches_simple(e: crate::dom::ElementDataV, sel: SimpleSelectorV) -> bool {
    (match sel.tag_name {
        Some(t) => e.tag_name == t,
        None => true,
    }) && (match sel.id {
        Some(i) => e.attrs.contains_key("id"@) && e.attrs["id"@] == i,
        None => true,
    }) && (forall|k: int|
        0 <= k < sel.class.len() ==> classes_of(e).contains(#[trigger] sel.class[k]))
}

/// Does a selector match an element?
pub open spec fn spec_matches(e: crate::dom::ElementDataV, sel: SelectorV) -> bool {
    match sel {
        SelectorV::Simple(s) => spec_matches_simple(e, s),
    }
}

/// Does `selector` match `elem`? Tag, id and every class condition are
/// checked; a condition the selector does not carry holds vacuously.
pub fn matches_simple_selector(elem: &ElementData, selector: &SimpleSelector) -> (r: bool)
    ensures
        r == spec_matches_simple(elem@, selector@),
{
    match &selector.tag_name {
        Some(name) => {
            if !str_eq(name.as_str(), elem.tag_name.as_str()) {
                return false;
            }
        },
        None => {},
    }
    match &selector.id {
        Some(id) => {
            match elem.id() {
                Some(v) => {
                    if !str_eq(v.as_str(), id.as_str()) {
                        return false;
                    }
                },
                None => {
                    return false;
                },
            }
        },
        None => {},
    }
    let cls = elem.classes();
    let n = selector.class.len();
    let mut k: usize = 0;
    while k < n
        invariant
            k <= n,
            n == selector.class@.len(),
            strings_view(cls@).to_set() == classes_of(elem@),
            forall|j: int| 0 <= j < k ==> classes_of(elem@).contains(selector@.class[j]),
            selector@.class == strings_view(selector.class@),
        decreases n - k,
    {
        let mut found = false;
        let m = cls.len();
        let mut t: usize = 0;
        while t < m
            invariant
                t <= m,
                m == cls@.len(),
                k < n,
                n == selector.class@.len(),
                found ==> strings_view(cls@).contains(selector.class@[k as int]@),
                !found ==> forall|j: int| 0 <= j < t ==> strings_view(cls@)[j]
                    != selector.class@[k as int]@,
            decreases m - t,
        {
            if str_eq(cls[t].as_str(), selector.class[k].as_str()) {
                assert(strings_view(cls@)[t as int] == selector.class@[k as int]@);
                found = true;
            }
            t += 1;
        }
        if !found {
            assert(!strings_view(cls@).to_set().contains(selector@.class[k as int]));
            return false;
        }
        k += 1;
    }
    true
}

/// Does `selector` match `elem`? Only the simple form exists.
pub fn matches(elem: &ElementData, selector: &Selector) -> (r: bool)
    ensures
        r == spec_matches(elem@, selector@),
{
    match selector {
        Selector::Simple(s) => matches_simple_selector(elem, s),
    }
}

/// The first selector of `sels` (from `i` on) that matches `e`, as its
/// specificity; the list is already sorted most-specific first.
pub open spec fn spec_match_rule_from(
    e: crate::dom::ElementDataV,
    sels: Seq<SelectorV>,
    i: int,
) -> Option<(int, int, int)>
    decreases sels.len() - i,
{
    if i < 0 || i >= sels.len() {
        None
    } else if spec_matches(e, sels[i]) {
        Some(spec_specificity(sels[i]))
    } else {
        spec_match_rule_from(e, sels, i + 1)
    }
}

/// The highest-specificity match a rule has for `e`, if any.
pub open spec fn spec_match_rule(e: crate::dom::ElementDataV, r: RuleV) -> Option<(int, int, int)> {
    spec_match_rule_from(e, r.selectors, 0)
}

/// The specificity of the first selector of `rule` that matches `elem`.
fn match_rule(elem: &ElementData, rule: &Rule) -> (r: Option<Specificity>)
    ensures
        match r {
            Some(sp) => spec_match_rule(elem@, rule@) == Some(spec3(sp)),
            None => spec_match_rule(elem@, rule@) is None,
        },
{
    let n = rule.selectors.len();
    let mut i: usize = 0;
    while i < n
        invariant
            i <= n,
            n == rule.selectors@.len(),
            spec_match_rule(elem@, rule@) == spec_match_rule_from(
                elem@,
                selectors_view(rule.selectors@),
                i as int,
            ),
        decreases n - i,
    {
        if matches(elem, &rule.selectors[i]) {
            let sp = rule.selectors[i].specificity();
            return Some(sp);
        }
        i += 1;
    }
    None
}

/// The matches of every rule against `e`, in document order: pairs of
/// the matched specificity and the rule's index.
pub open spec fn spec_matching_from(
    e: crate::dom::ElementDataV,
    rules: Seq<RuleV>,
    i: int,
    acc: Seq<((int, int, int), int)>,
) -> Seq<((int, int, int), int)>
    decreases rules.len() - i,
{
    if i < 0 || i >= rules.len() {
        acc
    } else {
        match spec_match_rule(e, rules[i]) {
            Some(sp) => spec_matching_from(e, rules, i + 1, acc.push((sp, i))),
            None => spec_matching_from(e, rules, i + 1, acc),
        }
    }
}

/// All rule matches for `e`, in document order.
pub open spec fn spec_matching_rules(e: crate::dom::ElementDataV, rules: Seq<RuleV>) -> Seq<
    ((int, int, int), int),
> {
    spec_matching_from(e, rules, 0, Seq::empty())
}

/// The pair a matched `(specificity, rule index)` stands for.
pub open spec fn pair_view(p: (Specificity, usize)) -> ((int, int, int), int) {
    (spec3(p.0), p.1 as int)
}

/// The pairs a matched list stands for, in order.
pub open spec fn pairs_view(ps: Seq<(Specificity, usize)>) -> Seq<((int, int, int), int)> {
    ps.map_values(|p: (Specificity, usize)| pair_view(p))
}

/// Collects, in document order, each rule that matches `elem` with the
/// specificity of its best matching selector.
fn matching_rules(elem: &ElementData, stylesheet: &Stylesheet) -> (r: Vec<(Specificity, usize)>)
    ensures
        pairs_view(r@) == spec_matching_rules(elem@, stylesheet@),
{
    let mut out: Vec<(Specificity, usize)> = Vec::new();
    let n = stylesheet.rules.len();
    proof {
        assert(pairs_view(out@) =~= Seq::<((int, int, int), int)>::empty());
    }
    let mut i: usize = 0;
    while i < n
        invariant
            i <= n,
            n == stylesheet.rules@.len(),
            spec_matching_rules(elem@, stylesheet@) == spec_matching_from(
                elem@,
                stylesheet@,
                i as int,
                pairs_view(out@),
            ),
        decreases n - i,
    {
        let ghost acc0 = pairs_view(out@);
        match match_rule(elem, &stylesheet.rules[i]) {
            Some(sp) => {
                out.push((sp, i));
                proof {
                    assert(pairs_view(out@) =~= acc0.push((spec3(sp), i as int)));
                }
            },
            None => {},
        }
        i += 1;
    }
    out
}

/// `x` placed into the ascending-by-specificity list `sorted`, after
/// every pair at most as specific: a stable insertion.
pub open spec fn asc_insert(sorted: Seq<((int, int, int), int)>, x: ((int, int, int), int)) -> Seq<
    ((int, int, int), int),
>
    decreases sorted.len(),
{
    if sorted.len() == 0 {
        seq![x]
    } else if !spec_lt(x.0, sorted.last().0) {
        sorted.push(x)
    } else {
        asc_insert(sorted.drop_last(), x).push(sorted.last())
    }
}

/// The matched pairs sorted by ascending specificity, stably: pairs
/// inserted left to right, each after its equals, so document order
/// survives among equal specificities.
pub open spec fn sort_pairs_asc(s: Seq<((int, int, int), int)>) -> Seq<((int, int, int), int)>
    decreases s.len(),
{
    if s.len() == 0 {
        Seq::empty()
    } else {
        asc_insert(sort_pairs_asc(s.drop_last()), s.last())
    }
}

/// Where the exec insertion lands is where `asc_insert` puts `x`.
proof fn lemma_asc_insert_at(sorted: Seq<((int, int, int), int)>, x: ((int, int, int), int), j: int)
    requires
        0 <= j <= sorted.len(),
        forall|k: int| j <= k < sorted.len() ==> spec_lt(x.0, (#[trigger] sorted[k]).0),
        j > 0 ==> !spec_lt(x.0, sorted[j - 1].0),
    ensures
        asc_insert(sorted, x) == sorted.take(j).push(x) + sorted.skip(j),
    decreases sorted.len(),
{
    if sorted.len() == 0 {
        assert(asc_insert(sorted, x) =~= sorted.take(j).push(x) + sorted.skip(j));
    } else if j == sorted.len() {
        assert(sorted.take(j) =~= sorted);
        assert(asc_insert(sorted, x) =~= sorted.take(j).push(x) + sorted.skip(j));
    } else {
        lemma_asc_insert_at(sorted.drop_last(), x, j);
        assert(sorted.drop_last().take(j) =~= sorted.take(j));
        assert(asc_insert(sorted, x) =~= sorted.take(j).push(x) + sorted.skip(j));
    }
}

/// Sorts matched pairs by ascending specificity, stably.
fn sort_pairs(v: Vec<(Specificity, usize)>) -> (r: Vec<(Specificity, usize)>)
    ensures
        pairs_view(r@) == sort_pairs_asc(pairs_view(v@)),
{
    let n = v.len();
    let mut out: Vec<(Specificity, usize)> = Vec::new();
    let ghost full = pairs_view(v@);
    let mut i: usize = 0;
    proof {
        assert(pairs_view(out@) =~= sort_pairs_asc(full.take(0)));
    }
    while i < n
        invariant
            i <= n,
            n == v@.len(),
            full == pairs_view(v@),
            pairs_view(out@) == sort_pairs_asc(full.take(i as int)),
        decreases n - i,
    {
        let x = v[i];
        let mut j: usize = out.len();
        while j > 0 && specificity_lt(&x.0, &out[j - 1].0)
            invariant
                j <= out@.len(),
                pairs_view(out@) == sort_pairs_asc(full.take(i as int)),
                i < n,
                n == v@.len(),
                full == pairs_view(v@),
                x == v@[i as int],
                forall|k: int| j <= k < out@.len() ==> spec_lt(
                    pair_view(x).0,
                    (#[trigger] pairs_view(out@)[k]).0,
                ),
            decreases j,
        {
            j = j - 1;
        }
        proof {
            lemma_asc_insert_at(pairs_view(out@), pair_view(x), j as int);
        }
        let ghost before = pairs_view(out@);
        out.insert(j, x);
        proof {
            assert(pairs_view(out@) =~= before.take(j as int).push(pair_view(x)) + before.skip(
                j as int,
            ));
            assert(full.take(i + 1).drop_last() =~= full.take(i as int));
            assert(full.take(i + 1).last() == full[i as int]);
        }
        i += 1;
    }
    proof {
        assert(full.take(n as int) =~= full);
    }
    out
}

/// Declarations applied in order: each overwrites any earlier value for
/// its property.
pub open spec fn apply_decls(
    m: Map<Seq<char>, ValueV>,
    ds: Seq<crate::parser::DeclarationV>,
) -> Map<Seq<char>, ValueV>
    decreases ds.len(),
{
    if ds.len() == 0 {
        m
    } else {
        apply_decls(m.insert(ds[0].name, ds[0].value), ds.drop_first())
    }
}

/// The declarations of the matched rules applied in cascade order.
pub open spec fn apply_matches(
    m: Map<Seq<char>, ValueV>,
    rules: Seq<RuleV>,
    pairs: Seq<((int, int, int), int)>,
    i: int,
) -> Map<Seq<char>, ValueV>
    decreases pairs.len() - i,
{
    if i < 0 || i >= pairs.len() {
        m
    } else {
        let idx = pairs[i].1;
        let m2 = if 0 <= idx < rules.len() {
            apply_decls(m, rules[idx].declarations)
        } else {
            m
        };
        apply_matches(m2, rules, pairs, i + 1)
    }
}

/// The resolved property mapping of an element: every matching rule's
/// declarations, applied in ascending specificity with document order
/// breaking ties, later applications overwriting earlier ones.
pub open spec fn spec_specified_values(e: crate::dom::ElementDataV, rules: Seq<RuleV>) -> Map<
    Seq<char>,
    ValueV,
> {
    apply_matches(Map::empty(), rules, sort_pairs_asc(spec_matching_rules(e, rules)), 0)
}

/// Resolves the cascade for one element.
fn specified_values(elem: &ElementData, stylesheet: &Stylesheet) -> (r: PropertyMap)
    ensures
        r@ == spec_specified_values(elem@, stylesheet@),
{
    let mut values = PropertyMap::new();
    let matched = matching_rules(elem, stylesheet);
    let sorted = sort_pairs(matched);
    let ghost pairs = pairs_view(sorted@);
    let n = sorted.len();
    let mut i: usize = 0;
    while i < n
        invariant
            i <= n,
            n == sorted@.len(),
            pairs == pairs_view(sorted@),
            spec_specified_values(elem@, stylesheet@) == apply_matches(
                values@,
                stylesheet@,
                pairs,
                i as int,
            ),
        decreases n - i,
    {
        let idx = sorted[i].1;
        if idx < stylesheet.rules.len() {
            let rule = &stylesheet.rules[idx];
            let ghost m0 = values@;
            let ghost ds = crate::parser::decls_view(rule.declarations@);
            let dn = rule.declarations.len();
            let mut d: usize = 0;
            proof {
                assert(ds.skip(0) =~= ds);
            }
            while d < dn
                invariant
                    d <= dn,
                    i < n,
                    n == sorted@.len(),
                    idx == sorted@[i as int].1,
                    idx < stylesheet.rules@.len(),
                    rule == &stylesheet.rules@[idx as int],
                    dn == rule.declarations@.len(),
                    ds == crate::parser::decls_view(rule.declarations@),
                    apply_decls(m0, ds) == apply_decls(values@, ds.skip(d as int)),
                decreases dn - d,
            {
                let name = rule.declarations[d].name.clone();
                let value = rule.declarations[d].value.dup();
                proof {
                    assert(ds.skip(d as int)[0] == ds[d as int]);
                    assert(ds.skip(d as int).drop_first() =~= ds.skip(d as int + 1));
                }
                values.insert(name, value);
                d += 1;
            }
            proof {
                assert(ds.skip(dn as int) =~= Seq::<crate::parser::DeclarationV>::empty());
            }
        }
        i += 1;
    }
    values
}

/// Spec-level picture of a styled node: the node's variant, its resolved
/// properties, and its styled children, mirroring the node's children.
pub struct StyledV {
    pub node_type: NodeTypeV,
    pub specified_values: Map<Seq<char>, ValueV>,
    pub children: Seq<StyledV>,
}

/// A node of the styled tree: the document node's variant, the property
/// mapping the cascade resolved for it, and styled children mirroring
/// the node's children one for one.
pub struct StyledNode {
    pub node_type: NodeType,
    pub specified_values: PropertyMap,
    pub children: Vec<StyledNode>,
}

impl View for StyledNode {
    type V = StyledV;

    open spec fn view(&self) -> StyledV
        decreases self,
    {
        StyledV {
            node_type: self.node_type@,
            specified_values: self.specified_values@,
            children: Seq::new(
                self.children@.len(),
                |i: int|
                    if 0 <= i < self.children@.len() {
                        self.children@[i]@
                    } else {
                        StyledV {
                            node_type: NodeTypeV::Text(Seq::empty()),
                            specified_values: Map::empty(),
                            children: Seq::empty(),
                        }
                    },
            ),
        }
    }
}

/// The styled tree of a node: elements get their resolved properties,
/// text and comments get none, and children are resolved recursively in
/// order.
pub open spec fn spec_style_tree(n: NodeV, rules: Seq<RuleV>) -> StyledV
    decreases n,
{
    StyledV {
        node_type: n.node_type,
        specified_values: match n.node_type {
            NodeTypeV::Element(e) => spec_specified_values(e, rules),
            _ => Map::empty(),
        },
        children: Seq::new(
            n.children.len(),
            |i: int|
                if 0 <= i < n.children.len() {
                    spec_style_tree(n.children[i], rules)
                } else {
                    StyledV {
                        node_type: NodeTypeV::Text(Seq::empty()),
                        specified_values: Map::empty(),
                        children: Seq::empty(),
                    }
                },
        ),
    }
}

/// Builds the styled tree for `root` against `stylesheet`: one styled
/// node per document node, in the same shape.
pub fn style_tree(root: &Node, stylesheet: &Stylesheet) -> (r: StyledNode)
    ensures
        r@ == spec_style_tree(root@, stylesheet@),
    decreases *root,
{
    let node_type = root.node_type.dup();
    let specified_values = match &root.node_type {
        NodeType::Element(e) => specified_values(e, stylesheet),
        _ => PropertyMap::new(),
    };
    let n = root.children.len();
    let mut children: Vec<StyledNode> = Vec::new();
    let mut i: usize = 0;
    while i < n
        invariant
            i <= n,
            n == root.children@.len(),
            children@.len() == i,
            forall|j: int| 0 <= j < i ==> children@[j]@ == spec_style_tree(
                root.children@[j]@,
                stylesheet@,
            ),
        decreases n - i,
    {
        let c = style_tree(&root.children[i], stylesheet);
        children.push(c);
        i += 1;
    }
    let r = StyledNode { node_type, specified_values, children };
    proof {
        assert(r@.children =~= spec_style_tree(root@, stylesheet@).children);
    }
    r
}

/// How a styled node is laid out; `NoBox` is the `none` display, under
/// which the node produces no box at all.
#[derive(Clone, Copy, PartialEq, Eq, Structural, Debug)]
pub enum Display {
    Inline,
    Block,
    NoBox,
}

/// The display of a styled node: its resolved `display` keyword, with
/// `block` and `none` recognized and everything else, including an
/// absent or non-keyword value, read as inline.
pub open spec fn spec_display(sn: StyledV) -> Display {
    if sn.specified_values.contains_key("display"@) {
        match sn.specified_values["display"@] {
            ValueV::Keyword(s) => {
                if s == "block"@ {
                    Display::Block
                } else if s == "none"@ {
                    Display::NoBox
                } else {
                    Display::Inline
                }
            },
            _ => Display::Inline,
        }
    } else {
        Display::Inline
    }
}

impl StyledNode {
    /// The resolved value of property `name`, if any, as a copy.
    pub fn value(&self, name: &str) -> (r: Option<Value>)
        ensures
            match r {
                Some(v) => self@.specified_values.contains_key(name@) && v@
                    == self@.specified_values[name@],
                None => !self@.specified_values.contains_key(name@),
            },
    {
        match self.specified_values.get(name) {
            Some(v) => Some(v.dup()),
            None => None,
        }
    }

    /// The node's display mode; inline unless `display` resolves to the
    /// keyword `block` or `none`.
    pub fn display(&self) -> (r: Display)
        ensures
            r == spec_display(self@),
    {
        match self.specified_values.get("display") {
            Some(Value::Keyword(s)) => {
                if str_eq(s.as_str(), "block") {
                    Display::Block
                } else if str_eq(s.as_str(), "none") {
                    Display::NoBox
                } else {
                    Display::Inline
                }
            },
            _ => Display::Inline,
        }
    }
}

} // verus!