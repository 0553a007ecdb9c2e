//! The guarantees the pipeline is built around, stated once and proved:
//! closing tags really match, repeated attributes keep their last value,
//! specificity ranks selectors as it should, resolution is a pure
//! function of its inputs, and the layout builder groups inline runs and
//! drops undisplayed children exactly as promised.

use vstd::prelude::*;

verus! {

use crate::dom::NodeTypeV;
use crate::layout::{
    insert_inline,
    spec_build_children,
    spec_build_layout,
    BoxTypeV,
    LayoutBoxV,
};
use crate::parser::{
    spec_lt,
    spec_parse_element,
    spec_parse_name,
    spec_specificity,
    starts_with_at,
    SelectorV,
};
use crate::styler::{spec_display, spec_style_tree, Display, StyledV};

/// Law: an element parses only when its closing tag carries its own
/// name: right before the position where the parse ends, the source
/// reads `</`, then the element's tag name, then `>`. An input that
/// closes a different tag never parses.
pub proof fn lemma_closing_tag_matches(s: Seq<char>, pos: nat, n: crate::dom::NodeV, p2: nat)
    requires
        spec_parse_element(s, pos) == Ok::<_, crate::parser::MarkupErrV>((n, p2)),
    ensures
        n.node_type matches NodeTypeV::Element(e) && p2 >= e.tag_name.len() + 3
            && s.subrange(p2 - e.tag_name.len() - 3, p2 as int) == "</"@ + e.tag_name + ">"@,
{
    reveal_strlit("<");
    reveal_strlit("</");
    reveal_strlit(">");
    let (tag_name, p1) = spec_parse_name(s, (pos + 1) as nat);
    if let Ok((attrs, pa)) = crate::parser::spec_parse_attributes(s, p1, Map::empty()) {
        if let Ok((children, p3)) = crate::parser::spec_parse_nodes(
            s,
            crate::parser::adv(pos, (pa + 1) as nat, s.len()),
            Seq::empty(),
        ) {
            let t = tag_name;
            assert(starts_with_at(s, p3, "</"@));
            assert(starts_with_at(s, (p3 + 2) as nat, t));
            assert(starts_with_at(s, (p3 + 2 + t.len()) as nat, ">"@));
            assert(p2 == p3 + t.len() + 3);
            assert(s.subrange(p2 - t.len() - 3, p2 as int) =~= "</"@ + t + ">"@) by {
                assert(s.subrange(p3 as int, p3 as int + 2) == "</"@);
                assert(s.subrange(p3 as int + 2, p3 as int + 2 + t.len() as int) == t);
                assert(s.subrange(p3 as int + 2 + t.len() as int, p3 as int + 3 + t.len() as int) == ">"@);
            }
        }
    }
}

/// Law: setting a name twice leaves exactly one binding for it, holding
/// the later value, whatever was set before.
pub proof fn lemma_repeated_key_last_wins(
    m: Map<Seq<char>, Seq<char>>,
    k: Seq<char>,
    v1: Seq<char>,
    v2: Seq<char>,
)
    ensures
        m.insert(k, v1).insert(k, v2) == m.insert(k, v2),
        m.insert(k, v1).insert(k, v2)[k] == v2,
{
    assert(m.insert(k, v1).insert(k, v2) =~= m.insert(k, v2));
}

/// Law: an id-carrying selector outranks any selector without an id;
/// among id-less selectors more class conditions outrank fewer; and with
/// ids and class counts equal, naming a tag outranks not naming one.
pub proof fn lemma_specificity_order(a: SelectorV, b: SelectorV)
    ensures
        ({
            let SelectorV::Simple(sa) = a;
            let SelectorV::Simple(sb) = b;
            &&& (sa.id is Some && sb.id is None) ==> spec_lt(
                spec_specificity(b),
                spec_specificity(a),
            )
            &&& (sa.id is Some == sb.id is Some && sa.class.len() > sb.class.len()) ==> spec_lt(
                spec_specificity(b),
                spec_specificity(a),
            )
            &&& (sa.id is Some == sb.id is Some && sa.class.len() == sb.class.len()
                && sa.tag_name is Some && sb.tag_name is None) ==> spec_lt(
                spec_specificity(b),
                spec_specificity(a),
            )
        }),
{
}

/// Law: the cascade's sort never reorders matches of equal specificity:
/// on a match list whose specificities are all equal, however long, it
/// is the identity, so document order survives into the order of
/// application.
pub proof fn lemma_equal_specificity_keeps_order(s: Seq<((int, int, int), int)>, sp: (int, int, int))
    requires
        forall|k: int| 0 <= k < s.len() ==> (#[trigger] s[k]).0 == sp,
    ensures
        crate::styler::sort_pairs_asc(s) == s,
    decreases s.len(),
{
    if s.len() > 0 {
        lemma_equal_specificity_keeps_order(s.drop_last(), sp);
        assert(!spec_lt(s.last().0, sp));
        if s.len() > 1 {
            assert(s.drop_last().last().0 == sp);
        }
        assert(crate::styler::asc_insert(s.drop_last(), s.last()) =~= s);
    }
}

/// Law: rules of equal specificity resolve in document order, the later
/// rule winning: when two rules both match an element with the same
/// specificity and each declares the same property once, the element
/// resolves that property to the second rule's value.
pub proof fn lemma_document_order_breaks_ties(
    e: crate::dom::ElementDataV,
    r0: crate::parser::RuleV,
    r1: crate::parser::RuleV,
    sp: (int, int, int),
    p: Seq<char>,
)
    requires
        crate::styler::spec_match_rule(e, r0) == Some(sp),
        crate::styler::spec_match_rule(e, r1) == Some(sp),
        r0.declarations.len() == 1,
        r1.declarations.len() == 1,
        r0.declarations[0].name == p,
        r1.declarations[0].name == p,
    ensures
        crate::styler::spec_specified_values(e, seq![r0, r1]).contains_key(p),
        crate::styler::spec_specified_values(e, seq![r0, r1])[p] == r1.declarations[0].value,
{
    let rules = seq![r0, r1];
    let m0 = crate::styler::spec_matching_rules(e, rules);
    let acc0: Seq<((int, int, int), int)> = Seq::empty();
    assert(rules[0] == r0 && rules[1] == r1);
    assert(m0 == crate::styler::spec_matching_from(e, rules, 1, acc0.push((sp, 0int))));
    assert(m0 == crate::styler::spec_matching_from(
        e,
        rules,
        2,
        acc0.push((sp, 0int)).push((sp, 1int)),
    ));
    assert(m0 == acc0.push((sp, 0int)).push((sp, 1int)));
    let pairs = crate::styler::sort_pairs_asc(m0);
    assert(m0.drop_last() =~= acc0.push((sp, 0int)));
    assert(acc0.push((sp, 0int)).drop_last() =~= acc0);
    let s1 = crate::styler::sort_pairs_asc(acc0.push((sp, 0int)));
    assert(crate::styler::sort_pairs_asc(acc0) == acc0);
    assert(s1 == crate::styler::asc_insert(acc0, (sp, 0int)));
    assert(s1 =~= seq![(sp, 0int)]);
    assert(!spec_lt(sp, sp));
    assert(pairs == crate::styler::asc_insert(s1, (sp, 1int)));
    assert(pairs == s1.push((sp, 1int)));
    assert(pairs == seq![(sp, 0int)].push((sp, 1int)));
    let em: Map<Seq<char>, crate::parser::ValueV> = Map::empty();
    let m1 = crate::styler::apply_decls(em, r0.declarations);
    assert(r0.declarations.drop_first() =~= Seq::<crate::parser::DeclarationV>::empty());
    assert(m1 == crate::styler::apply_decls(
        em.insert(p, r0.declarations[0].value),
        r0.declarations.drop_first(),
    ));
    assert(m1 == em.insert(p, r0.declarations[0].value));
    let m2 = crate::styler::apply_decls(m1, r1.declarations);
    assert(r1.declarations.drop_first() =~= Seq::<crate::parser::DeclarationV>::empty());
    assert(m2 == crate::styler::apply_decls(
        m1.insert(p, r1.declarations[0].value),
        r1.declarations.drop_first(),
    ));
    assert(m2 == m1.insert(p, r1.declarations[0].value));
    assert(pairs[0].1 == 0 && pairs[1].1 == 1);
    assert(crate::styler::apply_matches(em, rules, pairs, 0) == crate::styler::apply_matches(
        m1,
        rules,
        pairs,
        1,
    ));
    assert(crate::styler::apply_matches(m1, rules, pairs, 1) == crate::styler::apply_matches(
        m2,
        rules,
        pairs,
        2,
    ));
    assert(crate::styler::apply_matches(m2, rules, pairs, 2) == m2);
    assert(crate::styler::spec_specified_values(e, rules) == m2);
}

/// Law: style resolution is a pure function: two resolutions of the
/// same node tree against the same stylesheet give the same styled
/// tree, property mappings included.
pub proof fn lemma_resolution_deterministic(
    n: crate::dom::NodeV,
    rules: Seq<crate::parser::RuleV>,
    r1: StyledV,
    r2: StyledV,
)
    requires
        r1 == spec_style_tree(n, rules),
        r2 == spec_style_tree(n, rules),
    ensures
        r1 == r2,
{
}

/// Law: under a block parent whose children display as block, inline,
/// inline, block, inline, the layout tree has four children: the first
/// block box, one anonymous block holding both inline boxes, the second
/// block box, and a fresh anonymous block holding the last inline box.
/// Consecutive inline children share one wrapper; a block child in
/// between forces a new one.
pub proof fn lemma_inline_run_grouping(sn: StyledV)
    requires
        spec_display(sn) is Block,
        sn.children.len() == 5,
        spec_display(sn.children[0]) is Block,
        spec_display(sn.children[1]) is Inline,
        spec_display(sn.children[2]) is Inline,
        spec_display(sn.children[3]) is Block,
        spec_display(sn.children[4]) is Inline,
    ensures
        ({
            let r = spec_build_layout(sn);
            &&& r.children.len() == 4
            &&& r.children[0] == spec_build_layout(sn.children[0])
            &&& r.children[1].box_type is AnonymousBlock
            &&& r.children[1].children =~= seq![
                spec_build_layout(sn.children[1]),
                spec_build_layout(sn.children[2]),
            ]
            &&& r.children[2] == spec_build_layout(sn.children[3])
            &&& r.children[3].box_type is AnonymousBlock
            &&& r.children[3].children =~= seq![spec_build_layout(sn.children[4])]
        }),
{
    let e0: Seq<LayoutBoxV> = Seq::empty();
    let a1 = e0.push(spec_build_layout(sn.children[0]));
    let a2 = insert_inline(a1, spec_build_layout(sn.children[1]));
    let a3 = insert_inline(a2, spec_build_layout(sn.children[2]));
    let a4 = a3.push(spec_build_layout(sn.children[3]));
    let a5 = insert_inline(a4, spec_build_layout(sn.children[4]));
    assert(spec_build_children(sn, true, 0, e0) == spec_build_children(sn, true, 1, a1));
    assert(spec_build_children(sn, true, 1, a1) == spec_build_children(sn, true, 2, a2));
    assert(spec_build_children(sn, true, 2, a2) == spec_build_children(sn, true, 3, a3));
    assert(spec_build_children(sn, true, 3, a3) == spec_build_children(sn, true, 4, a4));
    assert(spec_build_children(sn, true, 4, a4) == spec_build_children(sn, true, 5, a5));
    assert(spec_build_children(sn, true, 5, a5) == a5);
    assert(a2.last().children =~= seq![spec_build_layout(sn.children[1])]);
    assert(a3.last().children =~= seq![
        spec_build_layout(sn.children[1]),
        spec_build_layout(sn.children[2]),
    ]);
    assert(a5.last().children =~= seq![spec_build_layout(sn.children[4])]);
}

/// Law: a child whose display is `none` is elided entirely: a block
/// parent with two block children and one `none` child between them
/// gets exactly the two block boxes, in order, and nothing else.
pub proof fn lemma_none_children_elided(sn: StyledV)
    requires
        spec_display(sn) is Block,
        sn.children.len() == 3,
        spec_display(sn.children[0]) is Block,
        spec_display(sn.children[1]) is NoBox,
        spec_display(sn.children[2]) is Block,
    ensures
        ({
            let r = spec_build_layout(sn);
            &&& r.children.len() == 2
            &&& r.children[0] == spec_build_layout(sn.children[0])
            &&& r.children[1] == spec_build_layout(sn.children[2])
        }),
{
    let e0: Seq<LayoutBoxV> = Seq::empty();
    let a1 = e0.push(spec_build_layout(sn.children[0]));
    let a3 = a1.push(spec_build_layout(sn.children[2]));
    assert(spec_build_children(sn, true, 0, e0) == spec_build_children(sn, true, 1, a1));
    assert(spec_build_children(sn, true, 1, a1) == spec_build_children(sn, true, 2, a1));
    assert(spec_build_children(sn, true, 2, a1) == spec_build_children(sn, true, 3, a3));
    assert(spec_build_children(sn, true, 3, a3) == a3);
}

} // verus!
