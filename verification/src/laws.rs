//! What holds of every report: laws that relate the productions to each
//! other, proved from the grammar.

use vstd::prelude::*;
use crate::attributes::{
    attribute, lemma_attribute_advances, lemma_operator_line_advances, more_attributes,
    operator_line,
};
use crate::expression::lemma_expression_is_opaque;
use crate::failure::FailureKind;
use crate::keys::{key_less, lemma_key_less_total};
use crate::plan::{
    ascending, attribute_map, lemma_attribute_map, Expression, ExpressionView, OperatorView,
    QueryPlanView, Section,
};
use crate::section::{
    after_line_break, full_section, lemma_full_section_advances, lemma_more_sections_advance,
    lemma_section_header_advances, more_sections, query_plans, section_header,
};
use crate::text::{has_char, has_tag, lemma_run_end, run_end, CharClass};
use crate::tree::{children, indentation, lemma_operator_advances, operator, roots};

verus! {

/// Whether every value of the mapping is opaque text.
pub open spec fn opaque_values(map: Map<Seq<char>, ExpressionView>) -> bool {
    forall|name: Seq<char>| map.contains_key(name) ==> (#[trigger] map[name]) is Unknown
}

/// Whether every attribute of the operator, and of every operator below
/// it, is opaque text.
pub open spec fn opaque_tree(operator: OperatorView) -> bool
    decreases operator,
{
    &&& opaque_values(operator.attributes)
    &&& forall|i: int|
        0 <= i < operator.children.len() ==> opaque_tree(#[trigger] operator.children[i])
}

/// Whether every operator of the forest is an opaque tree.
pub open spec fn opaque_forest(forest: Seq<OperatorView>) -> bool {
    forall|i: int| 0 <= i < forest.len() ==> opaque_tree(#[trigger] forest[i])
}

/// Whether every plan of the report holds opaque trees only.
pub open spec fn opaque_report(plans: Seq<QueryPlanView>) -> bool {
    forall|i: int| 0 <= i < plans.len() ==> opaque_forest((#[trigger] plans[i]).operators)
}

/// The value of an attribute is opaque text, and an attribute fails only
/// by not matching.
pub proof fn lemma_attribute_is_opaque(s: Seq<char>, pos: int)
    requires
        0 <= pos <= s.len(),
    ensures
        match attribute(s, pos) {
            Ok(((_, value), _)) => value is Unknown,
            Err((kind, _)) => kind == FailureKind::GrammarMismatch,
        },
{
    broadcast use lemma_run_end;

    let name_end = run_end(s, pos, CharClass::Identifier);
    if name_end > pos && has_char(s, name_end, '=') && has_char(s, name_end + 1, '[') {
        lemma_expression_is_opaque(s, name_end + 2);
    }
}

/// The attributes read after opaque ones are opaque, and the list never
/// fails.
pub proof fn lemma_more_attributes_are_opaque(
    s: Seq<char>,
    pos: int,
    acc: Map<Seq<char>, ExpressionView>,
)
    requires
        0 <= pos <= s.len(),
        opaque_values(acc),
    ensures
        more_attributes(s, pos, acc) matches Ok((map, _)) && opaque_values(map),
    decreases s.len() - pos,
{
    if has_tag(s, pos, ", "@) {
        let start = pos + ", "@.len();
        lemma_attribute_is_opaque(s, start);
        lemma_attribute_advances(s, start);
        match attribute(s, start) {
            Ok(((name, value), end)) => {
                lemma_more_attributes_are_opaque(s, end, acc.insert(name, value));
            },
            Err(_) => {},
        }
    }
}

/// The attributes of an operator line are opaque, and an operator line
/// fails only by not matching.
pub proof fn lemma_operator_line_is_opaque(s: Seq<char>, pos: int)
    requires
        0 <= pos <= s.len(),
    ensures
        match operator_line(s, pos) {
            Ok(((_, map), _)) => opaque_values(map),
            Err((kind, _)) => kind == FailureKind::GrammarMismatch,
        },
{
    broadcast use lemma_run_end;

    let name_end = run_end(s, pos, CharClass::Letter);
    if name_end > pos && has_char(s, name_end, '(') {
        let start = name_end + 1;
        lemma_attribute_is_opaque(s, start);
        lemma_attribute_advances(s, start);
        match attribute(s, start) {
            Ok(((name, value), end)) => {
                lemma_more_attributes_are_opaque(
                    s,
                    end,
                    Map::<Seq<char>, ExpressionView>::empty().insert(name, value),
                );
            },
            Err(_) => {},
        }
    }
}

/// An operator that matches is an opaque tree, and an operator fails
/// only by not matching.
pub proof fn lemma_operator_is_opaque(s: Seq<char>, pos: int)
    requires
        0 <= pos <= s.len(),
    ensures
        match operator(s, pos) {
            Ok((tree, _)) => opaque_tree(tree),
            Err((kind, _)) => kind == FailureKind::GrammarMismatch,
        },
    decreases s.len() - pos, 0int,
{
    lemma_run_end(s, pos, CharClass::Indentation);
    let start = pos + indentation(s, pos);
    lemma_operator_line_is_opaque(s, start);
    lemma_operator_line_advances(s, start);
    match operator_line(s, start) {
        Err(_) => {},
        Ok((_, line_end)) => {
            lemma_children_are_opaque(s, line_end, indentation(s, pos), Seq::empty());
        },
    }
}

/// The children read after opaque trees are opaque trees, and the list
/// never fails.
pub proof fn lemma_children_are_opaque(
    s: Seq<char>,
    pos: int,
    depth: int,
    acc: Seq<OperatorView>,
)
    requires
        0 <= pos <= s.len(),
        opaque_forest(acc),
    ensures
        children(s, pos, depth, acc) matches Ok((forest, _)) && opaque_forest(forest),
    decreases s.len() - pos, 1int,
{
    if indentation(s, pos) > depth {
        lemma_operator_is_opaque(s, pos);
        lemma_operator_advances(s, pos);
        match operator(s, pos) {
            Ok((child, end)) => {
                lemma_children_are_opaque(s, end, depth, acc.push(child));
            },
            Err(_) => {},
        }
    }
}

/// A forest never fails, and holds opaque trees only.
pub proof fn lemma_roots_are_opaque(s: Seq<char>, pos: int, acc: Seq<OperatorView>)
    requires
        0 <= pos <= s.len(),
        opaque_forest(acc),
    ensures
        roots(s, pos, acc) matches Ok((forest, _)) && opaque_forest(forest),
    decreases s.len() - pos,
{
    lemma_operator_is_opaque(s, pos);
    lemma_operator_advances(s, pos);
    match operator(s, pos) {
        Ok((root, end)) => {
            lemma_roots_are_opaque(s, end, acc.push(root));
        },
        Err(_) => {},
    }
}

/// Every recognized header gives a plan, whatever follows it: a section
/// succeeds exactly where its header does, with the forest that follows,
/// which may be empty; and it fails as its header fails.
pub proof fn lemma_section_follows_its_header(s: Seq<char>, pos: int)
    requires
        0 <= pos <= s.len(),
    ensures
        match section_header(s, pos) {
            Ok((section, forest_start)) => {
                &&& full_section(s, pos) matches Ok((plan, end))
                &&& plan.section == section
                &&& opaque_forest(plan.operators)
                &&& roots(s, forest_start, Seq::empty()) == Ok::<_, (FailureKind, int)>(
                    (plan.operators, end),
                )
            },
            Err(e) => full_section(s, pos) == Err::<(QueryPlanView, int), _>(e) && e.0
                != FailureKind::NumericOverflow,
        },
{
    lemma_section_header_advances(s, pos);
    match section_header(s, pos) {
        Ok((_, forest_start)) => {
            lemma_roots_are_opaque(s, forest_start, Seq::empty());
        },
        Err(_) => {},
    }
}

/// The sections read after `acc` fail only at a header with an unknown
/// title.
pub proof fn lemma_more_sections_outcome(s: Seq<char>, pos: int, acc: Seq<QueryPlanView>)
    requires
        0 <= pos <= s.len(),
        opaque_report(acc),
    ensures
        match more_sections(s, pos, acc) {
            Ok((plans, _)) => opaque_report(plans) && plans.len() >= acc.len(),
            Err((kind, _)) => kind == FailureKind::UnrecognizedSection,
        },
    decreases s.len() - pos,
{
    lemma_section_follows_its_header(s, pos);
    lemma_full_section_advances(s, pos);
    match full_section(s, pos) {
        Ok((plan, end)) => {
            lemma_more_sections_outcome(s, end, acc.push(plan));
        },
        Err(_) => {},
    }
}

/// The outcome of a report.
///
/// A report that parses has at least one section, and every attribute in
/// it is opaque text: the opaque fallback shadows every other production.
/// A report fails with a grammar mismatch exactly where its first section
/// header does not match, and otherwise only at a header with an unknown
/// title.  No report fails with a numeric overflow: no numeral is ever
/// read.
pub proof fn lemma_report_outcome(s: Seq<char>)
    ensures
        match query_plans(s) {
            Ok((plans, end)) => plans.len() >= 1 && opaque_report(plans) && 0 <= end <= s.len(),
            Err((kind, at)) => 0 <= at <= s.len() && (kind == FailureKind::UnrecognizedSection
                || kind == FailureKind::GrammarMismatch) && (kind == FailureKind::GrammarMismatch
                <==> section_header(s, after_line_break(s, 0)) == Err::<
                (Section, int),
                _,
            >((FailureKind::GrammarMismatch, at))),
        },
{
    let start = after_line_break(s, 0);
    lemma_section_follows_its_header(s, start);
    lemma_full_section_advances(s, start);
    match full_section(s, start) {
        Ok((first, first_end)) => {
            lemma_more_sections_outcome(s, first_end, seq![first]);
            lemma_more_sections_advance(s, first_end, seq![first]);
        },
        Err(_) => {},
    }
}

/// An operator is its line with the children that follow the line.
pub proof fn lemma_operator_of_line(
    s: Seq<char>,
    pos: int,
    line: ((Seq<char>, Map<Seq<char>, ExpressionView>), int),
    below: (Seq<OperatorView>, int),
)
    requires
        operator_line(s, pos + indentation(s, pos)) == Ok::<_, (FailureKind, int)>(line),
        children(s, line.1, indentation(s, pos), Seq::empty()) == Ok::<_, (FailureKind, int)>(
            below,
        ),
    ensures
        operator(s, pos) == Ok::<_, (FailureKind, int)>(
            (OperatorView { name: line.0.0, attributes: line.0.1, children: below.0 }, below.1),
        ),
{
}

/// A line that is not followed by a deeper one is a leaf, and the line
/// after it stays unread.
pub proof fn lemma_leaf(
    s: Seq<char>,
    pos: int,
    line: ((Seq<char>, Map<Seq<char>, ExpressionView>), int),
)
    requires
        operator_line(s, pos + indentation(s, pos)) == Ok::<_, (FailureKind, int)>(line),
        indentation(s, line.1) <= indentation(s, pos),
    ensures
        operator(s, pos) == Ok::<_, (FailureKind, int)>(
            (
                OperatorView { name: line.0.0, attributes: line.0.1, children: Seq::empty() },
                line.1,
            ),
        ),
{
    lemma_operator_of_line(s, pos, line, (Seq::empty(), line.1));
}

/// A deeper line that reads as an operator is the next child.
pub proof fn lemma_next_child(
    s: Seq<char>,
    pos: int,
    depth: int,
    acc: Seq<OperatorView>,
    child: (OperatorView, int),
)
    requires
        indentation(s, pos) > depth,
        operator(s, pos) == Ok::<_, (FailureKind, int)>(child),
    ensures
        children(s, pos, depth, acc) == children(s, child.1, depth, acc.push(child.0)),
{
    lemma_operator_advances(s, pos);
}

/// The subtree of an operator ends in front of the first line that is
/// not deeper than the operator, or does not read as an operator.
pub proof fn lemma_children_stop(s: Seq<char>, pos: int, depth: int, acc: Seq<OperatorView>)
    requires
        0 <= pos <= s.len(),
    ensures
        children(s, pos, depth, acc) matches Ok((_, end)) && (indentation(s, end) <= depth
            || operator(s, end) is Err),
    decreases s.len() - pos,
{
    if indentation(s, pos) > depth {
        lemma_operator_advances(s, pos);
        lemma_operator_is_opaque(s, pos);
        match operator(s, pos) {
            Ok((child, end)) => {
                lemma_children_stop(s, end, depth, acc.push(child));
            },
            Err(_) => {},
        }
    }
}

/// Indentation decides the shape of the tree.  Of three lines one after
/// the other, where the second is deeper than the first and the third is
/// not deeper than the first but deeper than their parent: the second is
/// the only child of the first, and the third is the next child of the
/// parent, a sibling of the first and not a child of the second.
pub proof fn lemma_child_then_sibling(
    s: Seq<char>,
    first: int,
    parent_depth: int,
    acc: Seq<OperatorView>,
    one: ((Seq<char>, Map<Seq<char>, ExpressionView>), int),
    two: ((Seq<char>, Map<Seq<char>, ExpressionView>), int),
    three: (OperatorView, int),
)
    requires
        operator_line(s, first + indentation(s, first)) == Ok::<_, (FailureKind, int)>(one),
        operator_line(s, one.1 + indentation(s, one.1)) == Ok::<_, (FailureKind, int)>(two),
        operator(s, two.1) == Ok::<_, (FailureKind, int)>(three),
        parent_depth < indentation(s, two.1) <= indentation(s, first) < indentation(s, one.1),
    ensures
        operator(s, first) == Ok::<_, (FailureKind, int)>(
            (
                OperatorView {
                    name: one.0.0,
                    attributes: one.0.1,
                    children: seq![
                        OperatorView {
                            name: two.0.0,
                            attributes: two.0.1,
                            children: Seq::empty(),
                        },
                    ],
                },
                two.1,
            ),
        ),
        children(s, first, parent_depth, acc) == children(
            s,
            three.1,
            parent_depth,
            acc.push(
                OperatorView {
                    name: one.0.0,
                    attributes: one.0.1,
                    children: seq![
                        OperatorView {
                            name: two.0.0,
                            attributes: two.0.1,
                            children: Seq::empty(),
                        },
                    ],
                },
            ).push(three.0),
        ),
{
    let inner = OperatorView { name: two.0.0, attributes: two.0.1, children: Seq::empty() };
    let outer = OperatorView { name: one.0.0, attributes: one.0.1, children: seq![inner] };
    let depth = indentation(s, first);
    lemma_leaf(s, one.1, two);
    lemma_next_child(s, one.1, depth, Seq::empty(), (inner, two.1));
    assert(Seq::<OperatorView>::empty().push(inner) =~= seq![inner]);
    assert(children(s, two.1, depth, seq![inner]) == Ok::<_, (FailureKind, int)>(
        (seq![inner], two.1),
    ));
    lemma_operator_of_line(s, first, one, (seq![inner], two.1));
    lemma_next_child(s, first, parent_depth, acc, (outer, two.1));
    lemma_next_child(s, two.1, parent_depth, acc.push(outer), three);
}

/// Two ascending lists that stand for the same mapping hold the same
/// name at every place that both have.
proof fn lemma_same_name_at(
    a: Seq<(String, Expression)>,
    b: Seq<(String, Expression)>,
    i: int,
)
    requires
        ascending(a),
        ascending(b),
        attribute_map(a) == attribute_map(b),
        0 <= i < a.len(),
        i < b.len(),
    ensures
        a[i].0@ == b[i].0@,
    decreases i,
{
    lemma_attribute_map(a);
    lemma_attribute_map(b);
    assert forall|j: int| 0 <= j < i implies a[j].0@ == b[j].0@ by {
        lemma_same_name_at(a, b, j);
    }
    let x = a[i].0@;
    let y = b[i].0@;
    assert(attribute_map(b).contains_key(x));
    let j = choose|j: int| 0 <= j < b.len() && #[trigger] b[j].0@ == x;
    assert(attribute_map(a).contains_key(y));
    let k = choose|k: int| 0 <= k < a.len() && #[trigger] a[k].0@ == y;
    lemma_key_less_total(x, y);
    if j < i {
        assert(a[j].0@ == b[j].0@);
        assert(key_less(a[j].0@, a[i].0@));
        lemma_key_less_total(x, x);
    } else if k < i {
        assert(a[k].0@ == b[k].0@);
        assert(key_less(b[k].0@, b[i].0@));
        lemma_key_less_total(y, y);
    } else {
        if j > i {
            assert(key_less(b[i].0@, b[j].0@));
        }
        if k > i {
            assert(key_less(a[i].0@, a[k].0@));
        }
    }
}

/// The ascending list of a mapping is unique: two ascending lists that
/// stand for the same mapping have the same length, and hold the same
/// name and the same value at every place.
pub proof fn lemma_canonical_attributes(
    a: Seq<(String, Expression)>,
    b: Seq<(String, Expression)>,
)
    requires
        ascending(a),
        ascending(b),
        attribute_map(a) == attribute_map(b),
    ensures
        a.len() == b.len(),
        forall|i: int| 0 <= i < a.len() ==> (#[trigger] a[i]).0@ == b[i].0@ && a[i].1@ == b[i].1@,
{
    lemma_attribute_map(a);
    lemma_attribute_map(b);
    lemma_no_longer_list(a, b);
    lemma_no_longer_list(b, a);
    assert forall|i: int| 0 <= i < a.len() implies (#[trigger] a[i]).0@ == b[i].0@ && a[i].1@
        == b[i].1@ by {
        lemma_same_name_at(a, b, i);
        assert(attribute_map(a)[a[i].0@] == a[i].1@);
        assert(attribute_map(b)[b[i].0@] == b[i].1@);
    }
}

/// Of two ascending lists for the same mapping none is longer than the
/// other.
proof fn lemma_no_longer_list(a: Seq<(String, Expression)>, b: Seq<(String, Expression)>)
    requires
        ascending(a),
        ascending(b),
        attribute_map(a) == attribute_map(b),
    ensures
        a.len() <= b.len(),
{
    if a.len() > b.len() {
        lemma_attribute_map(a);
        lemma_attribute_map(b);
        let x = a[b.len() as int].0@;
        assert(attribute_map(b).contains_key(x));
        let j = choose|j: int| 0 <= j < b.len() && #[trigger] b[j].0@ == x;
        lemma_same_name_at(a, b, j);
        assert(key_less(a[j].0@, a[b.len() as int].0@));
        lemma_key_less_total(x, x);
    }
}

} // verus!
