//! The expression grammar: what stands between the brackets of an
//! attribute.
//!
//! Each production is a grammar function from a text and a position to a
//! [`Step`], and a parsing function that computes it.  [`expression`] is
//! their ordered choice.

use vstd::prelude::*;
use crate::failure::{
    in_bounds, is_mismatch, mismatch, or_else, step_of, Failure, FailureKind, Parsed, Step,
};
use crate::number::{numeral, read_numeral};
use crate::plan::{expressions_of, lemma_projection_model, texts_of, Expression, ExpressionView};
use crate::text::{
    class_has, find, find_tag, has_char, has_char_at, has_tag, lemma_find_tag, lemma_run_end,
    run_end, scan, skip_tag, text_of, CharClass,
};

verus! {

/// An identifier: one or more letters, numbers and underscores.
pub open spec fn identifier(s: Seq<char>, pos: int) -> Step<Seq<char>> {
    let end = run_end(s, pos, CharClass::Identifier);
    if end > pos {
        Ok((s.subrange(pos, end), end))
    } else {
        mismatch(pos)
    }
}

/// Where the opaque text that starts at `pos` ends: at the first `]` that
/// closes no `[` opened since, or at the end of the text.  `open` counts
/// the brackets that are open at `pos`.
pub open spec fn unmatched_close(s: Seq<char>, pos: int, open: nat) -> int
    decreases s.len() - pos,
{
    if pos < 0 || pos >= s.len() {
        pos
    } else if s[pos] == '[' {
        unmatched_close(s, pos + 1, open + 1)
    } else if s[pos] == ']' {
        if open == 0 {
            pos
        } else {
            unmatched_close(s, pos + 1, (open - 1) as nat)
        }
    } else {
        unmatched_close(s, pos + 1, open)
    }
}

/// The opaque fallback: whatever stands before the first unmatched `]`,
/// taken as it is.  It matches at every position.
pub open spec fn opaque_text(s: Seq<char>, pos: int) -> Step<ExpressionView> {
    let end = unmatched_close(s, pos, 0);
    Ok((ExpressionView::Unknown(s.subrange(pos, end)), end))
}

/// The identifiers that follow the first one of a qualified name, each
/// after a comma with blanks around it.  A comma that no identifier
/// follows is not part of the list.
pub open spec fn more_segments(s: Seq<char>, pos: int, acc: Seq<Seq<char>>) -> (Seq<Seq<char>>, int)
    decreases s.len() - pos,
{
    let comma = run_end(s, pos, CharClass::Blank);
    if 0 <= pos && has_char(s, comma, ',') {
        let start = run_end(s, comma + 1, CharClass::Blank);
        let end = run_end(s, start, CharClass::Identifier);
        if end > start {
            proof {
                lemma_run_end(s, pos, CharClass::Blank);
                lemma_run_end(s, comma + 1, CharClass::Blank);
                lemma_run_end(s, start, CharClass::Identifier);
            }
            more_segments(s, end, acc.push(s.subrange(start, end)))
        } else {
            (acc, pos)
        }
    } else {
        (acc, pos)
    }
}

/// The segments of a qualified name: none, or identifiers separated by
/// commas.
pub open spec fn segments(s: Seq<char>, pos: int) -> (Seq<Seq<char>>, int) {
    let end = run_end(s, pos, CharClass::Identifier);
    if end > pos {
        more_segments(s, end, seq![s.subrange(pos, end)])
    } else {
        (Seq::empty(), pos)
    }
}

/// A qualified name: `[`, its segments, `]`.
pub open spec fn fqname(s: Seq<char>, pos: int) -> Step<ExpressionView> {
    if !has_char(s, pos, '[') {
        mismatch(pos)
    } else {
        let (name, end) = segments(s, pos + 1);
        if has_char(s, end, ']') {
            Ok((ExpressionView::FQName { name }, end + 1))
        } else {
            mismatch(end)
        }
    }
}

/// The name of a type: an identifier, and after it a parenthesized run of
/// numbers and commas where one stands there.
pub open spec fn type_text(s: Seq<char>, pos: int) -> Step<Seq<char>> {
    let name_end = run_end(s, pos, CharClass::Identifier);
    if name_end <= pos {
        mismatch(pos)
    } else {
        let close = run_end(s, name_end + 1, CharClass::TypeParameter);
        if has_char(s, name_end, '(') && close > name_end + 1 && has_char(s, close, ')') {
            Ok((s.subrange(pos, close + 1), close + 1))
        } else {
            Ok((s.subrange(pos, name_end), name_end))
        }
    }
}

/// A cast: `CAST(` identifier `AS` type `)`, with optional white space
/// after `CAST`, around `AS` and before `)`.
pub open spec fn cast_expression(s: Seq<char>, pos: int) -> Step<ExpressionView> {
    if !has_tag(s, pos, "CAST"@) {
        mismatch(pos)
    } else {
        let paren = run_end(s, pos + "CAST"@.len(), CharClass::Space);
        if !has_char(s, paren, '(') {
            mismatch(paren)
        } else {
            match identifier(s, paren + 1) {
                Err(e) => Err(e),
                Ok((input, input_end)) => {
                    let keyword = run_end(s, input_end, CharClass::Space);
                    if !has_tag(s, keyword, "AS"@) {
                        mismatch(keyword)
                    } else {
                        match type_text(s, run_end(s, keyword + "AS"@.len(), CharClass::Space)) {
                            Err(e) => Err(e),
                            Ok((cast_type, type_end)) => {
                                let close = run_end(s, type_end, CharClass::Space);
                                if has_char(s, close, ')') {
                                    Ok(
                                        (
                                            ExpressionView::CastExpression { input, cast_type },
                                            close + 1,
                                        ),
                                    )
                                } else {
                                    mismatch(close)
                                }
                            },
                        }
                    }
                },
            }
        }
    }
}

/// A hash distribution: `hash[` identifier `]`.
pub open spec fn hash_distribution(s: Seq<char>, pos: int) -> Step<ExpressionView> {
    if !has_tag(s, pos, "hash"@) {
        mismatch(pos)
    } else if !has_char(s, pos + "hash"@.len(), '[') {
        mismatch(pos + "hash"@.len())
    } else {
        match identifier(s, pos + "hash"@.len() + 1) {
            Err(e) => Err(e),
            Ok((column, end)) => if has_char(s, end, ']') {
                Ok((ExpressionView::HashDistribution(column), end + 1))
            } else {
                mismatch(end)
            },
        }
    }
}

/// Where the operator symbol at `pos` ends.  The symbols are tried in the
/// order `=`, `<`, `>`, `-`, `<=`, `>=`, and the first that stands there
/// is taken.
pub open spec fn operator_symbol(s: Seq<char>, pos: int) -> Option<int> {
    if has_tag(s, pos, "="@) {
        Some(pos + "="@.len())
    } else if has_tag(s, pos, "<"@) {
        Some(pos + "<"@.len())
    } else if has_tag(s, pos, ">"@) {
        Some(pos + ">"@.len())
    } else if has_tag(s, pos, "-"@) {
        Some(pos + "-"@.len())
    } else if has_tag(s, pos, "<="@) {
        Some(pos + "<="@.len())
    } else if has_tag(s, pos, ">="@) {
        Some(pos + ">="@.len())
    } else {
        None
    }
}

/// A typed literal: ASCII digits, `:`, and the text up to the next `)`,
/// which stays unread.  Digits that denote no 16-bit integer end the
/// parse.
pub open spec fn typed_literal(s: Seq<char>, pos: int) -> Step<ExpressionView> {
    let digits_end = run_end(s, pos, CharClass::Digit);
    if digits_end <= pos {
        mismatch(pos)
    } else if !has_char(s, digits_end, ':') {
        mismatch(digits_end)
    } else {
        match find_tag(s, digits_end + 1, ")"@) {
            None => mismatch(digits_end + 1),
            Some(close) => match numeral(s.subrange(pos, digits_end)) {
                Some(value) => Ok(
                    (
                        ExpressionView::TypedLiteral {
                            value,
                            _type: s.subrange(digits_end + 1, close),
                        },
                        close,
                    ),
                ),
                None => Err((FailureKind::NumericOverflow, pos)),
            },
        }
    }
}

/// A binding: an identifier, with a `$` in front of it or without.
pub open spec fn binding(s: Seq<char>, pos: int) -> Step<ExpressionView> {
    let start = if has_char(s, pos, '$') {
        pos + 1
    } else {
        pos
    };
    match identifier(s, start) {
        Err(e) => Err(e),
        Ok((_, end)) => Ok((ExpressionView::Binding { name: s.subrange(pos, end) }, end)),
    }
}

/// A number: a run of numeric characters.  A run that denotes no 16-bit
/// integer ends the parse.
pub open spec fn number(s: Seq<char>, pos: int) -> Step<ExpressionView> {
    let end = run_end(s, pos, CharClass::Numeric);
    if end <= pos {
        mismatch(pos)
    } else {
        match numeral(s.subrange(pos, end)) {
            Some(value) => Ok((ExpressionView::NumLiteral(value), end)),
            None => Err((FailureKind::NumericOverflow, pos)),
        }
    }
}

/// A field of a projection: a cast, a typed literal, a binding or a
/// number, whichever matches first.
pub open spec fn field(s: Seq<char>, pos: int) -> Step<ExpressionView> {
    or_else(
        cast_expression(s, pos),
        or_else(typed_literal(s, pos), or_else(binding(s, pos), number(s, pos))),
    )
}

/// A cast that matches ends after its start, inside the text.
pub proof fn lemma_cast_advances(s: Seq<char>, pos: int)
    requires
        0 <= pos <= s.len(),
    ensures
        cast_expression(s, pos) matches Ok((_, end)) ==> pos < end <= s.len(),
{
    broadcast use lemma_run_end;

}

/// A typed literal that matches ends after its start, inside the text.
pub proof fn lemma_typed_literal_advances(s: Seq<char>, pos: int)
    requires
        0 <= pos <= s.len(),
    ensures
        typed_literal(s, pos) matches Ok((_, end)) ==> pos < end <= s.len(),
{
    lemma_run_end(s, pos, CharClass::Digit);
    let digits_end = run_end(s, pos, CharClass::Digit);
    if digits_end > pos && has_char(s, digits_end, ':') {
        lemma_find_tag(s, digits_end + 1, ")"@);
    }
}

/// A field that matches ends after its start, inside the text.
pub proof fn lemma_field_advances(s: Seq<char>, pos: int)
    requires
        0 <= pos <= s.len(),
    ensures
        field(s, pos) matches Ok((_, end)) ==> pos < end <= s.len(),
{
    broadcast use lemma_run_end;

    lemma_cast_advances(s, pos);
    lemma_typed_literal_advances(s, pos);
}

/// The fields that follow the second one of a projection, each after
/// `", "`.  A separator that no field follows is not part of the list.
pub open spec fn more_fields(s: Seq<char>, pos: int, acc: Seq<ExpressionView>) -> Step<
    Seq<ExpressionView>,
>
    decreases s.len() - pos,
{
    if !has_tag(s, pos, ", "@) {
        Ok((acc, pos))
    } else {
        match field(s, pos + ", "@.len()) {
            Ok((value, end)) => {
                proof {
                    lemma_field_advances(s, pos + ", "@.len());
                }
                more_fields(s, end, acc.push(value))
            },
            Err(e) => if is_mismatch::<ExpressionView>(Err(e)) {
                Ok((acc, pos))
            } else {
                Err(e)
            },
        }
    }
}

/// A projection: two or more fields separated by `", "`, with a `]`
/// right after the last one.  The `]` stays unread.
pub open spec fn projection(s: Seq<char>, pos: int) -> Step<ExpressionView> {
    match field(s, pos) {
        Err(e) => Err(e),
        Ok((first, first_end)) => if !has_tag(s, first_end, ", "@) {
            mismatch(first_end)
        } else {
            match field(s, first_end + ", "@.len()) {
                Err(e) => Err(e),
                Ok((second, second_end)) => match more_fields(s, second_end, seq![first, second]) {
                    Err(e) => Err(e),
                    Ok((fields, end)) => if has_char(s, end, ']') {
                        Ok((ExpressionView::Projection { fields }, end))
                    } else {
                        mismatch(end)
                    },
                },
            }
        },
    }
}

/// A binary operation: an operator symbol, `(`, an expression, a comma
/// with blanks around it, an expression, `)`.  The second operand is
/// read only where it starts after `pos`, which makes the grammar well
/// founded; `lemma_expression_advances` shows that it always does.
pub open spec fn binary_operation(s: Seq<char>, pos: int) -> Step<ExpressionView>
    decreases s.len() - pos, 0int,
{
    match operator_symbol(s, pos) {
        None => mismatch(pos),
        Some(symbol_end) => if !has_char(s, symbol_end, '(') {
            mismatch(symbol_end)
        } else {
            match expression(s, symbol_end + 1) {
                Err(e) => Err(e),
                Ok((left, left_end)) => {
                    let comma = run_end(s, left_end, CharClass::Blank);
                    if !has_char(s, comma, ',') {
                        mismatch(comma)
                    } else {
                        let start = run_end(s, comma + 1, CharClass::Blank);
                        if start <= pos {
                            mismatch(start)
                        } else {
                            proof {
                                lemma_run_end(s, comma + 1, CharClass::Blank);
                            }
                            match expression(s, start) {
                                Err(e) => Err(e),
                                Ok((right, right_end)) => if has_char(s, right_end, ')') {
                                    Ok(
                                        (
                                            ExpressionView::BiOp {
                                                op: s.subrange(pos, symbol_end),
                                                left: Box::new(left),
                                                right: Box::new(right),
                                            },
                                            right_end + 1,
                                        ),
                                    )
                                } else {
                                    mismatch(right_end)
                                },
                            }
                        }
                    }
                },
            }
        },
    }
}

/// An expression: the first of the productions, in this order, that
/// matches at `pos`; a production that ends the parse ends it for the
/// choice too.
pub open spec fn expression(s: Seq<char>, pos: int) -> Step<ExpressionView>
    decreases s.len() - pos, 1int,
{
    or_else(
        opaque_text(s, pos),
        or_else(
            fqname(s, pos),
            or_else(
                cast_expression(s, pos),
                or_else(
                    hash_distribution(s, pos),
                    or_else(
                        binary_operation(s, pos),
                        or_else(
                            typed_literal(s, pos),
                            or_else(projection(s, pos), or_else(binding(s, pos), number(s, pos))),
                        ),
                    ),
                ),
            ),
        ),
    )
}

/// The opaque text that starts inside the text ends at or after its
/// start and inside the text.  It ends at a `]` or at the end of the
/// text.
pub proof fn lemma_unmatched_close(s: Seq<char>, pos: int, open: nat)
    requires
        0 <= pos <= s.len(),
    ensures
        pos <= unmatched_close(s, pos, open) <= s.len(),
        unmatched_close(s, pos, open) < s.len() ==> s[unmatched_close(s, pos, open)] == ']',
    decreases s.len() - pos,
{
    if pos < s.len() {
        if s[pos] == '[' {
            lemma_unmatched_close(s, pos + 1, open + 1);
        } else if s[pos] == ']' {
            if open > 0 {
                lemma_unmatched_close(s, pos + 1, (open - 1) as nat);
            }
        } else {
            lemma_unmatched_close(s, pos + 1, open);
        }
    }
}

/// What a character adds to the number of open brackets.
pub open spec fn bracket_weight(c: char) -> int {
    if c == '[' {
        1
    } else if c == ']' {
        -1
    } else {
        0
    }
}

/// The number of `[` in `t` less the number of `]`.
pub open spec fn open_brackets(t: Seq<char>) -> int
    decreases t.len(),
{
    if t.len() == 0 {
        0
    } else {
        open_brackets(t.drop_last()) + bracket_weight(t.last())
    }
}

/// The open brackets of a text are those of its first character and
/// those of the rest.
pub proof fn lemma_open_brackets_from_front(t: Seq<char>)
    requires
        t.len() > 0,
    ensures
        open_brackets(t) == bracket_weight(t[0]) + open_brackets(t.drop_first()),
    decreases t.len(),
{
    if t.len() == 1 {
        assert(open_brackets(t.drop_last()) == 0);
        assert(open_brackets(t.drop_first()) == 0);
    } else {
        lemma_open_brackets_from_front(t.drop_last());
        assert(t.drop_last()[0] == t[0]);
        assert(t.drop_last().drop_first() =~= t.drop_first().drop_last());
        assert(t.drop_first().last() == t.last());
    }
}

/// Opaque text is balanced.  Every `]` inside it closes a bracket that
/// is open there; and where the text ends before the end of the input,
/// it ends at a `]` with no bracket left open.  `open` counts the
/// brackets that are open at `pos`.
pub proof fn lemma_opaque_text_is_balanced(s: Seq<char>, pos: int, open: nat)
    requires
        0 <= pos <= s.len(),
    ensures
        forall|p: int|
            pos <= p < unmatched_close(s, pos, open) && #[trigger] s[p] == ']' ==> open
                + open_brackets(s.subrange(pos, p)) > 0,
        unmatched_close(s, pos, open) < s.len() ==> s[unmatched_close(s, pos, open)] == ']'
            && open + open_brackets(s.subrange(pos, unmatched_close(s, pos, open))) == 0,
    decreases s.len() - pos,
{
    lemma_unmatched_close(s, pos, open);
    let end = unmatched_close(s, pos, open);
    assert(s.subrange(pos, pos).len() == 0);
    if pos < s.len() && !(s[pos] == ']' && open == 0) {
        let inner: nat = (open + bracket_weight(s[pos])) as nat;
        lemma_opaque_text_is_balanced(s, pos + 1, inner);
        lemma_unmatched_close(s, pos + 1, inner);
        assert forall|p: int| pos < p <= end implies open + open_brackets(s.subrange(pos, p))
            == inner + open_brackets(s.subrange(pos + 1, p)) by {
            lemma_open_brackets_from_front(s.subrange(pos, p));
            assert(s.subrange(pos, p).drop_first() =~= s.subrange(pos + 1, p));
        }
    }
}

/// The opaque fallback stands first in the choice and matches
/// everywhere, so it shadows every other production: an expression is
/// always the opaque text up to the first unmatched `]`.
pub proof fn lemma_expression_is_opaque(s: Seq<char>, pos: int)
    ensures
        expression(s, pos) == opaque_text(s, pos),
        expression(s, pos) == Ok::<(ExpressionView, int), (FailureKind, int)>(
            (
                ExpressionView::Unknown(s.subrange(pos, unmatched_close(s, pos, 0))),
                unmatched_close(s, pos, 0),
            ),
        ),
{
}

/// An expression never fails, and ends between its start and the end of
/// the text.
pub proof fn lemma_expression_advances(s: Seq<char>, pos: int)
    requires
        0 <= pos <= s.len(),
    ensures
        expression(s, pos) matches Ok((_, end)) && pos <= end <= s.len(),
{
    lemma_expression_is_opaque(s, pos);
    lemma_unmatched_close(s, pos, 0);
}

/// No operand of a binary operation is followed by the comma that the
/// production asks for: an operand takes everything up to a `]` or the
/// end of the text.  So no text is a binary operation.
pub proof fn lemma_binary_operation_never_matches(s: Seq<char>, pos: int)
    requires
        0 <= pos <= s.len(),
    ensures
        binary_operation(s, pos) is Err,
{
    broadcast use lemma_run_end;

    match operator_symbol(s, pos) {
        None => {},
        Some(symbol_end) => {
            if has_char(s, symbol_end, '(') {
                lemma_expression_advances(s, symbol_end + 1);
                lemma_unmatched_close(s, symbol_end + 1, 0);
                let left_end = unmatched_close(s, symbol_end + 1, 0);
                let comma = run_end(s, left_end, CharClass::Blank);
                if left_end < s.len() {
                    assert(s[left_end] == ']');
                    assert(!class_has(CharClass::Blank, s[left_end]));
                    assert(comma == left_end);
                }
            }
        },
    }
}

/// A projection that matches has at least two fields.
pub proof fn lemma_projection_has_two_fields(s: Seq<char>, pos: int)
    requires
        0 <= pos <= s.len(),
    ensures
        projection(s, pos) matches Ok((value, _)) ==> value is Projection
            && value->Projection_fields.len() >= 2,
{
    match field(s, pos) {
        Err(_) => {},
        Ok((first, first_end)) => {
            lemma_field_advances(s, pos);
            if has_tag(s, first_end, ", "@) {
                match field(s, first_end + ", "@.len()) {
                    Err(_) => {},
                    Ok((second, second_end)) => {
                        lemma_field_advances(s, first_end + ", "@.len());
                        lemma_more_fields_grow(s, second_end, seq![first, second]);
                    },
                }
            }
        },
    }
}

/// The fields read after `acc` are appended to it.
pub proof fn lemma_more_fields_grow(s: Seq<char>, pos: int, acc: Seq<ExpressionView>)
    requires
        0 <= pos <= s.len(),
    ensures
        more_fields(s, pos, acc) matches Ok((fields, end)) ==> fields.len() >= acc.len() && pos
            <= end <= s.len(),
    decreases s.len() - pos,
{
    if has_tag(s, pos, ", "@) {
        match field(s, pos + ", "@.len()) {
            Ok((value, end)) => {
                lemma_field_advances(s, pos + ", "@.len());
                lemma_more_fields_grow(s, end, acc.push(value));
            },
            Err(_) => {},
        }
    }
}

/// Parses an identifier at `pos`.
pub fn parse_identifier(text: &[char], pos: usize) -> (r: Parsed<String>)
    requires
        pos <= text@.len(),
    ensures
        step_of(r) == identifier(text@, pos as int),
        in_bounds(r, pos, text@.len()),
{
    let end = scan(text, pos, CharClass::Identifier);
    if end > pos {
        Ok((text_of(text, pos, end), end))
    } else {
        Err(Failure::mismatch(pos))
    }
}

/// Takes the text from `pos` up to the first unmatched `]`, or to the end
/// of the text, as an opaque expression.
pub fn parse_until_unbalanced_bracket(text: &[char], pos: usize) -> (r: Parsed<Expression>)
    requires
        pos <= text@.len(),
    ensures
        step_of(r) == opaque_text(text@, pos as int),
        in_bounds(r, pos, text@.len()),
{
    let mut open: usize = 0;
    let mut i: usize = pos;
    while i < text.len()
        invariant
            pos <= i <= text@.len(),
            open <= i - pos,
            unmatched_close(text@, pos as int, 0) == unmatched_close(text@, i as int, open as nat),
        decreases text@.len() - i,
    {
        let c = text[i];
        if c == '[' {
            open += 1;
        } else if c == ']' {
            if open == 0 {
                return Ok((Expression::Unknown(text_of(text, pos, i)), i));
            }
            open -= 1;
        }
        i += 1;
    }
    Ok((Expression::Unknown(text_of(text, pos, i)), i))
}

/// Reads the segments of a qualified name from `pos` on.
fn parse_segments(text: &[char], pos: usize) -> (r: (Vec<String>, usize))
    requires
        pos <= text@.len(),
    ensures
        segments(text@, pos as int) == (texts_of(r.0@), r.1 as int),
        pos <= r.1 <= text@.len(),
{
    let mut names: Vec<String> = Vec::new();
    let first_end = scan(text, pos, CharClass::Identifier);
    if first_end <= pos {
        assert(texts_of(names@) =~= Seq::empty());
        return (names, pos);
    }
    names.push(text_of(text, pos, first_end));
    assert(texts_of(names@) =~= seq![text@.subrange(pos as int, first_end as int)]);
    let mut at: usize = first_end;
    loop
        invariant
            pos <= at <= text@.len(),
            segments(text@, pos as int) == more_segments(text@, at as int, texts_of(names@)),
        decreases text@.len() - at,
    {
        let comma = scan(text, at, CharClass::Blank);
        if !has_char_at(text, comma, ',') {
            return (names, at);
        }
        let start = scan(text, comma + 1, CharClass::Blank);
        let end = scan(text, start, CharClass::Identifier);
        if end <= start {
            return (names, at);
        }
        let ghost before = texts_of(names@);
        names.push(text_of(text, start, end));
        assert(texts_of(names@) =~= before.push(text@.subrange(start as int, end as int)));
        at = end;
    }
}

/// Parses a qualified name at `pos`.
pub fn parse_fqname(text: &[char], pos: usize) -> (r: Parsed<Expression>)
    requires
        pos <= text@.len(),
    ensures
        step_of(r) == fqname(text@, pos as int),
        in_bounds(r, pos, text@.len()),
{
    if !has_char_at(text, pos, '[') {
        return Err(Failure::mismatch(pos));
    }
    let (name, end) = parse_segments(text, pos + 1);
    if has_char_at(text, end, ']') {
        Ok((Expression::FQName { name }, end + 1))
    } else {
        Err(Failure::mismatch(end))
    }
}

/// Parses the name of a type at `pos`.
pub fn parse_type(text: &[char], pos: usize) -> (r: Parsed<String>)
    requires
        pos <= text@.len(),
    ensures
        step_of(r) == type_text(text@, pos as int),
        in_bounds(r, pos, text@.len()),
{
    let name_end = scan(text, pos, CharClass::Identifier);
    if name_end <= pos {
        return Err(Failure::mismatch(pos));
    }
    if has_char_at(text, name_end, '(') {
        let close = scan(text, name_end + 1, CharClass::TypeParameter);
        if close > name_end + 1 && has_char_at(text, close, ')') {
            return Ok((text_of(text, pos, close + 1), close + 1));
        }
    }
    Ok((text_of(text, pos, name_end), name_end))
}

/// Parses a cast at `pos`.
pub fn parse_cast_expression(text: &[char], pos: usize) -> (r: Parsed<Expression>)
    requires
        pos <= text@.len(),
    ensures
        step_of(r) == cast_expression(text@, pos as int),
        in_bounds(r, pos, text@.len()),
{
    let after_cast = match skip_tag(text, pos, "CAST") {
        Some(end) => end,
        None => {
            return Err(Failure::mismatch(pos));
        },
    };
    let paren = scan(text, after_cast, CharClass::Space);
    if !has_char_at(text, paren, '(') {
        return Err(Failure::mismatch(paren));
    }
    let (input, input_end) = parse_identifier(text, paren + 1)?;
    let keyword = scan(text, input_end, CharClass::Space);
    let after_as = match skip_tag(text, keyword, "AS") {
        Some(end) => end,
        None => {
            return Err(Failure::mismatch(keyword));
        },
    };
    let type_start = scan(text, after_as, CharClass::Space);
    let (cast_type, type_end) = parse_type(text, type_start)?;
    let close = scan(text, type_end, CharClass::Space);
    if has_char_at(text, close, ')') {
        Ok((Expression::CastExpression { input, cast_type }, close + 1))
    } else {
        Err(Failure::mismatch(close))
    }
}

/// Parses a hash distribution at `pos`.
pub fn parse_hash_dist(text: &[char], pos: usize) -> (r: Parsed<Expression>)
    requires
        pos <= text@.len(),
    ensures
        step_of(r) == hash_distribution(text@, pos as int),
        in_bounds(r, pos, text@.len()),
{
    let bracket = match skip_tag(text, pos, "hash") {
        Some(end) => end,
        None => {
            return Err(Failure::mismatch(pos));
        },
    };
    if !has_char_at(text, bracket, '[') {
        return Err(Failure::mismatch(bracket));
    }
    let (column, end) = parse_identifier(text, bracket + 1)?;
    if has_char_at(text, end, ']') {
        Ok((Expression::HashDistribution(column), end + 1))
    } else {
        Err(Failure::mismatch(end))
    }
}

/// Steps over the operator symbol at `pos`.
fn parse_operator_symbol(text: &[char], pos: usize) -> (end: Option<usize>)
    requires
        pos <= text@.len(),
    ensures
        match end {
            Some(e) => operator_symbol(text@, pos as int) == Some(e as int) && pos <= e
                <= text@.len(),
            None => operator_symbol(text@, pos as int) is None,
        },
{
    match skip_tag(text, pos, "=") {
        Some(e) => {
            return Some(e);
        },
        None => {},
    }
    match skip_tag(text, pos, "<") {
        Some(e) => {
            return Some(e);
        },
        None => {},
    }
    match skip_tag(text, pos, ">") {
        Some(e) => {
            return Some(e);
        },
        None => {},
    }
    match skip_tag(text, pos, "-") {
        Some(e) => {
            return Some(e);
        },
        None => {},
    }
    match skip_tag(text, pos, "<=") {
        Some(e) => {
            return Some(e);
        },
        None => {},
    }
    skip_tag(text, pos, ">=")
}

/// Parses a typed literal at `pos`.
pub fn parse_type_lit(text: &[char], pos: usize) -> (r: Parsed<Expression>)
    requires
        pos <= text@.len(),
    ensures
        step_of(r) == typed_literal(text@, pos as int),
        in_bounds(r, pos, text@.len()),
{
    let digits_end = scan(text, pos, CharClass::Digit);
    if digits_end <= pos {
        return Err(Failure::mismatch(pos));
    }
    if !has_char_at(text, digits_end, ':') {
        return Err(Failure::mismatch(digits_end));
    }
    match find(text, digits_end + 1, ")") {
        None => Err(Failure::mismatch(digits_end + 1)),
        Some((close, _)) => match read_numeral(text, pos, digits_end) {
            Some(value) => Ok(
                (
                    Expression::TypedLiteral {
                        value,
                        _type: text_of(text, digits_end + 1, close),
                    },
                    close,
                ),
            ),
            None => Err(Failure { kind: FailureKind::NumericOverflow, at: pos }),
        },
    }
}

/// Parses a binding at `pos`.
pub fn parse_binding(text: &[char], pos: usize) -> (r: Parsed<Expression>)
    requires
        pos <= text@.len(),
    ensures
        step_of(r) == binding(text@, pos as int),
        in_bounds(r, pos, text@.len()),
{
    let start = if has_char_at(text, pos, '$') {
        pos + 1
    } else {
        pos
    };
    let end = scan(text, start, CharClass::Identifier);
    if end > start {
        Ok((Expression::Binding { name: text_of(text, pos, end) }, end))
    } else {
        Err(Failure::mismatch(start))
    }
}

/// Parses a number at `pos`.
pub fn parse_number(text: &[char], pos: usize) -> (r: Parsed<Expression>)
    requires
        pos <= text@.len(),
    ensures
        step_of(r) == number(text@, pos as int),
        in_bounds(r, pos, text@.len()),
{
    let end = scan(text, pos, CharClass::Numeric);
    if end <= pos {
        return Err(Failure::mismatch(pos));
    }
    match read_numeral(text, pos, end) {
        Some(value) => Ok((Expression::NumLiteral(value), end)),
        None => Err(Failure { kind: FailureKind::NumericOverflow, at: pos }),
    }
}

/// Parses one field of a projection at `pos`.
pub fn parse_field(text: &[char], pos: usize) -> (r: Parsed<Expression>)
    requires
        pos <= text@.len(),
    ensures
        step_of(r) == field(text@, pos as int),
        in_bounds(r, pos, text@.len()),
{
    match parse_cast_expression(text, pos) {
        Ok(done) => {
            return Ok(done);
        },
        Err(failure) => {
            if !failure.is_mismatch() {
                return Err(failure);
            }
        },
    }
    match parse_type_lit(text, pos) {
        Ok(done) => {
            return Ok(done);
        },
        Err(failure) => {
            if !failure.is_mismatch() {
                return Err(failure);
            }
        },
    }
    match parse_binding(text, pos) {
        Ok(done) => {
            return Ok(done);
        },
        Err(failure) => {
            if !failure.is_mismatch() {
                return Err(failure);
            }
        },
    }
    parse_number(text, pos)
}

/// Reads the fields of a projection that follow those in `fields`.
fn parse_more_fields(text: &[char], pos: usize, fields: Vec<Box<Expression>>) -> (r: Parsed<
    Vec<Box<Expression>>,
>)
    requires
        pos <= text@.len(),
    ensures
        match r {
            Ok((all, end)) => more_fields(text@, pos as int, expressions_of(fields@)) == Ok::<
                _,
                (FailureKind, int),
            >((expressions_of(all@), end as int)),
            Err(failure) => more_fields(text@, pos as int, expressions_of(fields@)) == Err::<
                (Seq<ExpressionView>, int),
                _,
            >((failure.kind, failure.at as int)),
        },
        in_bounds(r, pos, text@.len()),
{
    let mut all = fields;
    let mut at: usize = pos;
    loop
        invariant
            pos <= at <= text@.len(),
            more_fields(text@, pos as int, expressions_of(fields@)) == more_fields(
                text@,
                at as int,
                expressions_of(all@),
            ),
        decreases text@.len() - at,
    {
        let start = match skip_tag(text, at, ", ") {
            Some(end) => end,
            None => {
                return Ok((all, at));
            },
        };
        match parse_field(text, start) {
            Ok((value, end)) => {
                proof {
                    lemma_field_advances(text@, start as int);
                }
                let ghost before = expressions_of(all@);
                all.push(Box::new(value));
                assert(expressions_of(all@) =~= before.push(value@));
                at = end;
            },
            Err(failure) => {
                if failure.is_mismatch() {
                    return Ok((all, at));
                }
                return Err(failure);
            },
        }
    }
}

/// Parses a projection at `pos`.
pub fn parse_projection(text: &[char], pos: usize) -> (r: Parsed<Expression>)
    requires
        pos <= text@.len(),
    ensures
        step_of(r) == projection(text@, pos as int),
        in_bounds(r, pos, text@.len()),
{
    let (first, first_end) = parse_field(text, pos)?;
    let second_start = match skip_tag(text, first_end, ", ") {
        Some(end) => end,
        None => {
            return Err(Failure::mismatch(first_end));
        },
    };
    let (second, second_end) = parse_field(text, second_start)?;
    let mut fields: Vec<Box<Expression>> = Vec::new();
    fields.push(Box::new(first));
    fields.push(Box::new(second));
    assert(expressions_of(fields@) =~= seq![first@, second@]);
    let (fields, end) = parse_more_fields(text, second_end, fields)?;
    if has_char_at(text, end, ']') {
        proof {
            lemma_projection_model(fields);
        }
        Ok((Expression::Projection { fields }, end))
    } else {
        Err(Failure::mismatch(end))
    }
}

/// Parses a binary operation at `pos`.
pub fn parse_bi_op(text: &[char], pos: usize) -> (r: Parsed<Expression>)
    requires
        pos <= text@.len(),
    ensures
        step_of(r) == binary_operation(text@, pos as int),
        in_bounds(r, pos, text@.len()),
    decreases text@.len() - pos, 0int,
{
    let symbol_end = match parse_operator_symbol(text, pos) {
        Some(end) => end,
        None => {
            return Err(Failure::mismatch(pos));
        },
    };
    if !has_char_at(text, symbol_end, '(') {
        return Err(Failure::mismatch(symbol_end));
    }
    let (left, left_end) = parse_expression(text, symbol_end + 1)?;
    let comma = scan(text, left_end, CharClass::Blank);
    if !has_char_at(text, comma, ',') {
        return Err(Failure::mismatch(comma));
    }
    let start = scan(text, comma + 1, CharClass::Blank);
    let (right, right_end) = parse_expression(text, start)?;
    if has_char_at(text, right_end, ')') {
        Ok(
            (
                Expression::BiOp {
                    op: text_of(text, pos, symbol_end),
                    left: Box::new(left),
                    right: Box::new(right),
                },
                right_end + 1,
            ),
        )
    } else {
        Err(Failure::mismatch(right_end))
    }
}

/// Parses an expression at `pos`: tries the productions in their fixed
/// order and keeps the first that matches.
pub fn parse_expression(text: &[char], pos: usize) -> (r: Parsed<Expression>)
    requires
        pos <= text@.len(),
    ensures
        step_of(r) == expression(text@, pos as int),
        in_bounds(r, pos, text@.len()),
    decreases text@.len() - pos, 1int,
{
    match parse_until_unbalanced_bracket(text, pos) {
        Ok(done) => {
            return Ok(done);
        },
        Err(failure) => {
            if !failure.is_mismatch() {
                return Err(failure);
            }
        },
    }
    match parse_fqname(text, pos) {
        Ok(done) => {
            return Ok(done);
        },
        Err(failure) => {
            if !failure.is_mismatch() {
                return Err(failure);
            }
        },
    }
    match parse_cast_expression(text, pos) {
        Ok(done) => {
            return Ok(done);
        },
        Err(failure) => {
            if !failure.is_mismatch() {
                return Err(failure);
            }
        },
    }
    match parse_hash_dist(text, pos) {
        Ok(done) => {
            return Ok(done);
        },
        Err(failure) => {
            if !failure.is_mismatch() {
                return Err(failure);
            }
        },
    }
    match parse_bi_op(text, pos) {
        Ok(done) => {
            return Ok(done);
        },
        Err(failure) => {
            if !failure.is_mismatch() {
                return Err(failure);
            }
        },
    }
    match parse_type_lit(text, pos) {
        Ok(done) => {
            return Ok(done);
        },
        Err(failure) => {
            if !failure.is_mismatch() {
                return Err(failure);
            }
        },
    }
    match parse_projection(text, pos) {
        Ok(done) => {
            return Ok(done);
        },
        Err(failure) => {
            if !failure.is_mismatch() {
                return Err(failure);
            }
        },
    }
    match parse_binding(text, pos) {
        Ok(done) => {
            return Ok(done);
        },
        Err(failure) => {
            if !failure.is_mismatch() {
                return Err(failure);
            }
        },
    }
    parse_number(text, pos)
}

} // verus!
