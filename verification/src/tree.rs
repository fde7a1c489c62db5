//! The tree builder: operator lines, and the forest that their
//! indentation draws.
//!
//! The depth of a line is the number of characters in front of the
//! operator's name.  A line that is deeper than an operator and follows
//! it, directly or after deeper lines, belongs to that operator's
//! subtree.

use vstd::prelude::*;
use crate::attributes::{lemma_operator_line_advances, operator_line, parse_operator_line};
use crate::failure::{in_bounds, is_mismatch, mismatch, step_of, FailureKind, Parsed, Step};
use crate::plan::{lemma_operator_model, operators_of, roots_of, Operator, OperatorView};
use crate::text::{lemma_run_end, run_end, scan, CharClass};

verus! {

/// The depth of the line that starts at `pos`: the length of its run of
/// characters that are neither letters nor numbers.
pub open spec fn indentation(s: Seq<char>, pos: int) -> int {
    run_end(s, pos, CharClass::Indentation) - pos
}

/// An operator with its subtree: the indentation, the operator line, and
/// as children the operators that follow and are deeper than the line.
pub open spec fn operator(s: Seq<char>, pos: int) -> Step<OperatorView>
    decreases s.len() - pos, 0int,
{
    match operator_line(s, pos + indentation(s, pos)) {
        Err(e) => Err(e),
        Ok(((name, attributes), line_end)) => {
            proof {
                if 0 <= pos <= s.len() {
                    lemma_run_end(s, pos, CharClass::Indentation);
                    lemma_operator_line_advances(s, pos + indentation(s, pos));
                }
            }
            match children(s, line_end, indentation(s, pos), Seq::empty()) {
                Err(e) => Err(e),
                Ok((below, end)) => Ok((OperatorView { name, attributes, children: below }, end)),
            }
        },
    }
}

/// The children of an operator of depth `depth`, from `pos` on, after
/// those in `acc`.  As long as the next line is deeper than `depth` and
/// reads as an operator, that operator and its subtree are the next
/// child.  The first line that is not deeper ends the list, and stays
/// unread.  The list goes on only behind a child that ends after its
/// start, which makes the grammar well founded;
/// `lemma_operator_advances` shows that every child does.
pub open spec fn children(s: Seq<char>, pos: int, depth: int, acc: Seq<OperatorView>) -> Step<
    Seq<OperatorView>,
>
    decreases s.len() - pos, 1int,
{
    if indentation(s, pos) > depth {
        match operator(s, pos) {
            Ok((child, end)) => if pos < end <= s.len() {
                children(s, end, depth, acc.push(child))
            } else {
                mismatch(end)
            },
            Err(e) => if is_mismatch::<OperatorView>(Err(e)) {
                Ok((acc, pos))
            } else {
                Err(e)
            },
        }
    } else {
        Ok((acc, pos))
    }
}

/// An operator that matches starts inside the text and ends after its
/// start, inside the text.
pub proof fn lemma_operator_advances(s: Seq<char>, pos: int)
    ensures
        operator(s, pos) matches Ok((_, end)) ==> 0 <= pos < end <= s.len(),
        0 <= pos <= s.len() ==> (operator(s, pos) matches Err((_, at)) ==> pos <= at <= s.len()),
    decreases s.len() - pos, 0int,
{
    if 0 <= pos <= s.len() {
        lemma_run_end(s, pos, CharClass::Indentation);
        let start = pos + indentation(s, pos);
        lemma_operator_line_advances(s, start);
        match operator_line(s, start) {
            Err(_) => {},
            Ok((_, line_end)) => {
                lemma_children_advance(s, line_end, indentation(s, pos), Seq::empty());
            },
        }
    }
}

/// The children of an operator end between their start and the end of
/// the text.
pub proof fn lemma_children_advance(s: Seq<char>, pos: int, depth: int, acc: Seq<OperatorView>)
    requires
        0 <= pos <= s.len(),
    ensures
        children(s, pos, depth, acc) matches Ok((_, end)) ==> pos <= end <= s.len(),
        children(s, pos, depth, acc) matches Err((_, at)) ==> pos <= at <= s.len(),
    decreases s.len() - pos, 1int,
{
    if indentation(s, pos) > depth {
        lemma_operator_advances(s, pos);
        match operator(s, pos) {
            Ok((child, end)) => {
                lemma_children_advance(s, end, depth, acc.push(child));
            },
            Err(_) => {},
        }
    }
}

/// The forest under a section header: operators, one after the other,
/// up to the first text that is no operator.
pub open spec fn roots(s: Seq<char>, pos: int, acc: Seq<OperatorView>) -> Step<Seq<OperatorView>>
    decreases s.len() - pos,
{
    match operator(s, pos) {
        Ok((root, end)) => {
            proof {
                lemma_operator_advances(s, pos);
            }
            roots(s, end, acc.push(root))
        },
        Err(e) => if is_mismatch::<OperatorView>(Err(e)) {
            Ok((acc, pos))
        } else {
            Err(e)
        },
    }
}

/// A forest ends between its start and the end of the text.
pub proof fn lemma_roots_advance(s: Seq<char>, pos: int, acc: Seq<OperatorView>)
    requires
        0 <= pos <= s.len(),
    ensures
        roots(s, pos, acc) matches Ok((_, end)) ==> pos <= end <= s.len(),
        roots(s, pos, acc) matches Err((_, at)) ==> pos <= at <= s.len(),
    decreases s.len() - pos,
{
    lemma_operator_advances(s, pos);
    match operator(s, pos) {
        Ok((root, end)) => {
            lemma_roots_advance(s, end, acc.push(root));
        },
        Err(_) => {},
    }
}

/// Measures the depth of the line that starts at `pos`, and returns it
/// with the position of the operator's name.
pub fn parse_operator_ident(text: &[char], pos: usize) -> (r: (usize, usize))
    requires
        pos <= text@.len(),
    ensures
        r.0 == indentation(text@, pos as int),
        r.1 == pos + r.0,
        r.1 <= text@.len(),
{
    let start = scan(text, pos, CharClass::Indentation);
    (start - pos, start)
}

/// Parses the operator whose line starts at `pos`, with its subtree.
pub fn parse_operator(text: &[char], pos: usize) -> (r: Parsed<Operator>)
    requires
        pos <= text@.len(),
    ensures
        step_of(r) == operator(text@, pos as int),
        in_bounds(r, pos, text@.len()),
        r matches Ok((operator, end)) ==> operator.wf() && pos < end,
    decreases text@.len() - pos, 0int,
{
    let (depth, start) = parse_operator_ident(text, pos);
    let ((name, attributes), line_end) = parse_operator_line(text, start)?;
    let (children, end) = parse_children(text, line_end, depth)?;
    let operator = Operator { name, attributes, children };
    proof {
        lemma_operator_model(operator);
    }
    Ok((operator, end))
}

/// Parses the children of an operator of depth `depth` from `pos` on.
fn parse_children(text: &[char], pos: usize, depth: usize) -> (r: Parsed<Vec<Box<Operator>>>)
    requires
        pos <= text@.len(),
    ensures
        match r {
            Ok((below, end)) => children(text@, pos as int, depth as int, Seq::empty()) == Ok::<
                _,
                (FailureKind, int),
            >((operators_of(below@), end as int)) && forall|i: int|
                0 <= i < below@.len() ==> (#[trigger] below@[i]).wf(),
            Err(failure) => children(text@, pos as int, depth as int, Seq::empty()) == Err::<
                (Seq<OperatorView>, int),
                _,
            >((failure.kind, failure.at as int)),
        },
        in_bounds(r, pos, text@.len()),
    decreases text@.len() - pos, 1int,
{
    let mut below: Vec<Box<Operator>> = Vec::new();
    let mut at: usize = pos;
    assert(operators_of(below@) =~= Seq::empty());
    loop
        invariant
            pos <= at <= text@.len(),
            children(text@, pos as int, depth as int, Seq::empty()) == children(
                text@,
                at as int,
                depth as int,
                operators_of(below@),
            ),
            forall|i: int| 0 <= i < below@.len() ==> (#[trigger] below@[i]).wf(),
        decreases text@.len() - at,
    {
        let (next_depth, _) = parse_operator_ident(text, at);
        if next_depth <= depth {
            return Ok((below, at));
        }
        match parse_operator(text, at) {
            Ok((child, end)) => {
                let ghost before = operators_of(below@);
                below.push(Box::new(child));
                assert(operators_of(below@) =~= before.push(child@));
                at = end;
            },
            Err(failure) => {
                if failure.is_mismatch() {
                    return Ok((below, at));
                }
                return Err(failure);
            },
        }
    }
}

/// Parses the forest under a section header from `pos` on.
pub fn parse_roots(text: &[char], pos: usize) -> (r: Parsed<Vec<Operator>>)
    requires
        pos <= text@.len(),
    ensures
        match r {
            Ok((forest, end)) => roots(text@, pos as int, Seq::empty()) == Ok::<
                _,
                (FailureKind, int),
            >((roots_of(forest@), end as int)) && forall|i: int|
                0 <= i < forest@.len() ==> (#[trigger] forest@[i]).wf(),
            Err(failure) => roots(text@, pos as int, Seq::empty()) == Err::<
                (Seq<OperatorView>, int),
                _,
            >((failure.kind, failure.at as int)),
        },
        in_bounds(r, pos, text@.len()),
{
    let mut forest: Vec<Operator> = Vec::new();
    let mut at: usize = pos;
    assert(roots_of(forest@) =~= Seq::empty());
    loop
        invariant
            pos <= at <= text@.len(),
            roots(text@, pos as int, Seq::empty()) == roots(text@, at as int, roots_of(forest@)),
            forall|i: int| 0 <= i < forest@.len() ==> (#[trigger] forest@[i]).wf(),
        decreases text@.len() - at,
    {
        match parse_operator(text, at) {
            Ok((root, end)) => {
                let ghost before = roots_of(forest@);
                forest.push(root);
                assert(roots_of(forest@) =~= before.push(root@));
                at = end;
            },
            Err(failure) => {
                if failure.is_mismatch() {
                    return Ok((forest, at));
                }
                return Err(failure);
            },
        }
    }
}

} // verus!
