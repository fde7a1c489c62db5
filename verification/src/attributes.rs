//! The attribute list of an operator line: `Name(k1=[v1], k2=[v2])`.
//!
//! The attributes of an operator are a mapping from names to
//! expressions.  They are kept as a list in ascending order of the
//! names, which holds each name once.

use vstd::prelude::*;
use crate::expression::{expression, identifier, lemma_expression_advances, parse_expression};
use crate::failure::{
    in_bounds, is_mismatch, mismatch, step_of, Failure, FailureKind, Parsed, Step,
};
use crate::keys::{
    key_less, lemma_common_prefix_is, lemma_key_less_irreflexive, lemma_key_less_total,
    lemma_key_less_transitive,
};
use crate::plan::{ascending, attribute_map, lemma_attribute_map, Expression, ExpressionView};
use crate::text::{
    has_char, has_char_at, has_tag, lemma_run_end, run_end, scan, skip_tag, text_of, CharClass,
};

verus! {

/// An attribute: identifier `=[` expression `]`.
pub open spec fn attribute(s: Seq<char>, pos: int) -> Step<(Seq<char>, ExpressionView)> {
    match identifier(s, pos) {
        Err(e) => Err(e),
        Ok((name, name_end)) => if !has_char(s, name_end, '=') {
            mismatch(name_end)
        } else if !has_char(s, name_end + 1, '[') {
            mismatch(name_end + 1)
        } else {
            match expression(s, name_end + 2) {
                Err(e) => Err(e),
                Ok((value, end)) => if has_char(s, end, ']') {
                    Ok(((name, value), end + 1))
                } else {
                    mismatch(end)
                },
            }
        },
    }
}

/// An attribute that matches ends after its start, inside the text.
pub proof fn lemma_attribute_advances(s: Seq<char>, pos: int)
    requires
        0 <= pos <= s.len(),
    ensures
        attribute(s, pos) matches Ok((_, end)) ==> pos < end <= s.len(),
        attribute(s, pos) matches Err((_, at)) ==> pos <= at <= s.len(),
{
    broadcast use lemma_run_end;

    let name_end = run_end(s, pos, CharClass::Identifier);
    if name_end > pos && has_char(s, name_end, '=') && has_char(s, name_end + 1, '[') {
        lemma_expression_advances(s, name_end + 2);
    }
}

/// The attributes that follow the first one, each after `", "`, added
/// to `acc` in the order of the text: where a name comes again, its later
/// value replaces the earlier one.  A separator that no attribute follows
/// is not part of the list.
pub open spec fn more_attributes(
    s: Seq<char>,
    pos: int,
    acc: Map<Seq<char>, ExpressionView>,
) -> Step<Map<Seq<char>, ExpressionView>>
    decreases s.len() - pos,
{
    if !has_tag(s, pos, ", "@) {
        Ok((acc, pos))
    } else {
        match attribute(s, pos + ", "@.len()) {
            Ok(((name, value), end)) => {
                proof {
                    lemma_attribute_advances(s, pos + ", "@.len());
                }
                more_attributes(s, end, acc.insert(name, value))
            },
            Err(e) => if is_mismatch::<(Seq<char>, ExpressionView)>(Err(e)) {
                Ok((acc, pos))
            } else {
                Err(e)
            },
        }
    }
}

/// The attributes of an operator: none, or attributes separated by
/// `", "`.
pub open spec fn attributes(s: Seq<char>, pos: int) -> Step<Map<Seq<char>, ExpressionView>> {
    match attribute(s, pos) {
        Ok(((name, value), end)) => more_attributes(s, end, Map::empty().insert(name, value)),
        Err(e) => if is_mismatch::<(Seq<char>, ExpressionView)>(Err(e)) {
            Ok((Map::empty(), pos))
        } else {
            Err(e)
        },
    }
}

/// An operator line without its indentation: a name of ASCII letters,
/// `(`, the attributes, `)` and a line feed.
pub open spec fn operator_line(s: Seq<char>, pos: int) -> Step<
    (Seq<char>, Map<Seq<char>, ExpressionView>),
> {
    let name_end = run_end(s, pos, CharClass::Letter);
    if name_end <= pos {
        mismatch(pos)
    } else if !has_char(s, name_end, '(') {
        mismatch(name_end)
    } else {
        match attributes(s, name_end + 1) {
            Err(e) => Err(e),
            Ok((map, end)) => if has_tag(s, end, ")\n"@) {
                Ok(((s.subrange(pos, name_end), map), end + ")\n"@.len()))
            } else {
                mismatch(end)
            },
        }
    }
}

/// The attributes read after `acc` end between their start and the end
/// of the text.
pub proof fn lemma_more_attributes_advance(
    s: Seq<char>,
    pos: int,
    acc: Map<Seq<char>, ExpressionView>,
)
    requires
        0 <= pos <= s.len(),
    ensures
        more_attributes(s, pos, acc) matches Ok((_, end)) ==> pos <= end <= s.len(),
        more_attributes(s, pos, acc) matches Err((_, at)) ==> pos <= at <= s.len(),
    decreases s.len() - pos,
{
    if has_tag(s, pos, ", "@) {
        lemma_attribute_advances(s, pos + ", "@.len());
        match attribute(s, pos + ", "@.len()) {
            Ok(((name, value), end)) => {
                lemma_more_attributes_advance(s, end, acc.insert(name, value));
            },
            Err(_) => {},
        }
    }
}

/// An operator line that matches ends after its start, inside the text.
pub proof fn lemma_operator_line_advances(s: Seq<char>, pos: int)
    requires
        0 <= pos <= s.len(),
    ensures
        operator_line(s, pos) matches Ok((_, end)) ==> pos < end <= s.len(),
        operator_line(s, pos) matches Err((_, at)) ==> pos <= at <= s.len(),
{
    broadcast use lemma_run_end;

    let name_end = run_end(s, pos, CharClass::Letter);
    if name_end > pos && has_char(s, name_end, '(') {
        lemma_attribute_advances(s, name_end + 1);
        match attribute(s, name_end + 1) {
            Ok(((name, value), end)) => {
                lemma_more_attributes_advance(s, end, Map::empty().insert(name, value));
            },
            Err(_) => {},
        }
    }
}

/// Putting a new name at its place in an ascending list adds it to the
/// mapping.
pub proof fn lemma_insert_entry(
    entries: Seq<(String, Expression)>,
    at: int,
    entry: (String, Expression),
)
    requires
        ascending(entries),
        0 <= at <= entries.len(),
        forall|i: int| 0 <= i < at ==> key_less(#[trigger] entries[i].0@, entry.0@),
        at < entries.len() ==> key_less(entry.0@, entries[at].0@),
    ensures
        ascending(entries.insert(at, entry)),
        attribute_map(entries.insert(at, entry)) == attribute_map(entries).insert(
            entry.0@,
            entry.1@,
        ),
{
    let longer = entries.insert(at, entry);
    assert forall|i: int, j: int| 0 <= i < j < longer.len() implies key_less(
        #[trigger] longer[i].0@,
        #[trigger] longer[j].0@,
    ) by {
        if j == at {
            assert(longer[i] == entries[i]);
        } else if i == at {
            assert(longer[j] == entries[j - 1]);
            if j - 1 > at {
                assert(key_less(entries[at].0@, entries[j - 1].0@));
                lemma_key_less_transitive(entry.0@, entries[at].0@, entries[j - 1].0@);
            }
        } else {
            let i0 = if i < at { i } else { i - 1 };
            let j0 = if j < at { j } else { j - 1 };
            assert(longer[i] == entries[i0]);
            assert(longer[j] == entries[j0]);
            assert(key_less(entries[i0].0@, entries[j0].0@));
        }
    }
    lemma_attribute_map(entries);
    lemma_attribute_map(longer);
    let left = attribute_map(longer);
    let right = attribute_map(entries).insert(entry.0@, entry.1@);
    assert forall|key: Seq<char>| left.contains_key(key) implies right.contains_key(key)
        && left[key] == right[key] by {
        let i = choose|i: int| 0 <= i < longer.len() && #[trigger] longer[i].0@ == key;
        if i != at {
            let i0 = if i < at { i } else { i - 1 };
            assert(longer[i] == entries[i0]);
            assert(attribute_map(entries).contains_key(entries[i0].0@));
            lemma_key_less_irreflexive(entry.0@);
            if i0 < at {
                assert(key_less(entries[i0].0@, entry.0@));
            } else {
                if i0 > at {
                    assert(key_less(entries[at].0@, entries[i0].0@));
                    lemma_key_less_transitive(entry.0@, entries[at].0@, entries[i0].0@);
                }
                assert(key_less(entry.0@, entries[i0].0@));
            }
            assert(key != entry.0@);
        } else {
            assert(longer[at] == entry);
        }
    }
    assert forall|key: Seq<char>| right.contains_key(key) implies left.contains_key(key) by {
        if key == entry.0@ {
            assert(longer[at].0@ == key);
        } else {
            let i0 = choose|i: int| 0 <= i < entries.len() && #[trigger] entries[i].0@ == key;
            let i = if i0 < at { i0 } else { i0 + 1 };
            assert(longer[i] == entries[i0]);
            assert(longer[i].0@ == key);
        }
    }
    assert(left =~= right);
}

/// Putting a new value under a name that an ascending list holds
/// replaces the value in the mapping.
pub proof fn lemma_replace_entry(
    entries: Seq<(String, Expression)>,
    at: int,
    entry: (String, Expression),
)
    requires
        ascending(entries),
        0 <= at < entries.len(),
        entries[at].0@ == entry.0@,
    ensures
        ascending(entries.update(at, entry)),
        attribute_map(entries.update(at, entry)) == attribute_map(entries).insert(
            entry.0@,
            entry.1@,
        ),
{
    let changed = entries.update(at, entry);
    assert forall|i: int, j: int| 0 <= i < j < changed.len() implies key_less(
        #[trigger] changed[i].0@,
        #[trigger] changed[j].0@,
    ) by {
        assert(changed[i].0@ == entries[i].0@);
        assert(changed[j].0@ == entries[j].0@);
        assert(key_less(entries[i].0@, entries[j].0@));
    }
    lemma_attribute_map(entries);
    lemma_attribute_map(changed);
    let left = attribute_map(changed);
    let right = attribute_map(entries).insert(entry.0@, entry.1@);
    assert forall|key: Seq<char>| left.contains_key(key) implies right.contains_key(key)
        && left[key] == right[key] by {
        let i = choose|i: int| 0 <= i < changed.len() && #[trigger] changed[i].0@ == key;
        assert(changed[i].0@ == entries[i].0@);
        assert(attribute_map(entries).contains_key(entries[i].0@));
        if i != at {
            lemma_key_less_irreflexive(entry.0@);
            if i < at {
                assert(key_less(entries[i].0@, entries[at].0@));
            } else {
                assert(key_less(entries[at].0@, entries[i].0@));
            }
            assert(changed[i] == entries[i]);
        }
    }
    assert forall|key: Seq<char>| right.contains_key(key) implies left.contains_key(key) by {
        if key == entry.0@ {
            assert(changed[at].0@ == key);
        } else {
            let i = choose|i: int| 0 <= i < entries.len() && #[trigger] entries[i].0@ == key;
            assert(changed[i].0@ == entries[i].0@);
        }
    }
    assert(left =~= right);
}

/// How one name stands to another in the order of names.
#[derive(Debug, Clone, Copy, PartialEq, Eq, Structural)]
pub enum Rank {
    Before,
    Same,
    After,
}

/// Compares two parts of `text` as names.
pub fn rank_spans(text: &[char], a_from: usize, a_to: usize, b_from: usize, b_to: usize) -> (rank:
    Rank)
    requires
        a_from <= a_to <= text@.len(),
        b_from <= b_to <= text@.len(),
    ensures
        rank == Rank::Before <==> key_less(
            text@.subrange(a_from as int, a_to as int),
            text@.subrange(b_from as int, b_to as int),
        ),
        rank == Rank::Same <==> text@.subrange(a_from as int, a_to as int) == text@.subrange(
            b_from as int,
            b_to as int,
        ),
        rank == Rank::After <==> key_less(
            text@.subrange(b_from as int, b_to as int),
            text@.subrange(a_from as int, a_to as int),
        ),
{
    let ghost a = text@.subrange(a_from as int, a_to as int);
    let ghost b = text@.subrange(b_from as int, b_to as int);
    proof {
        lemma_key_less_total(a, b);
    }
    let mut k: usize = 0;
    while k < a_to - a_from && k < b_to - b_from
        invariant
            a_from <= a_to <= text@.len(),
            b_from <= b_to <= text@.len(),
            a == text@.subrange(a_from as int, a_to as int),
            b == text@.subrange(b_from as int, b_to as int),
            k <= a.len(),
            k <= b.len(),
            forall|i: int| 0 <= i < k ==> a[i] == b[i],
        decreases a.len() - k,
    {
        let x = text[a_from + k];
        let y = text[b_from + k];
        if x != y {
            proof {
                assert(a[k as int] == x);
                assert(b[k as int] == y);
                lemma_common_prefix_is(a, b, k as int);
                lemma_common_prefix_is(b, a, k as int);
            }
            return if x < y {
                Rank::Before
            } else {
                Rank::After
            };
        }
        k += 1;
    }
    proof {
        lemma_common_prefix_is(a, b, k as int);
        lemma_common_prefix_is(b, a, k as int);
        if a.len() == b.len() {
            assert(a =~= b);
        }
    }
    if a_to - a_from < b_to - b_from {
        Rank::Before
    } else if a_to - a_from > b_to - b_from {
        Rank::After
    } else {
        Rank::Same
    }
}

/// Whether `spans` gives, for each entry, the part of `text` that its
/// name was read from.
pub open spec fn spans_match(
    text: Seq<char>,
    spans: Seq<(usize, usize)>,
    entries: Seq<(String, Expression)>,
) -> bool {
    &&& spans.len() == entries.len()
    &&& forall|i: int|
        0 <= i < spans.len() ==> (#[trigger] spans[i]).0 <= spans[i].1 <= text.len()
            && entries[i].0@ == text.subrange(spans[i].0 as int, spans[i].1 as int)
}

/// Puts `value` under the name that stands in `text` from `from` up to
/// `to`: at the place that keeps the names ascending, or in place of
/// the value that the name had.
pub fn insert_attribute(
    text: &[char],
    spans: &mut Vec<(usize, usize)>,
    entries: &mut Vec<(String, Expression)>,
    from: usize,
    to: usize,
    name: String,
    value: Expression,
)
    requires
        from <= to <= text@.len(),
        name@ == text@.subrange(from as int, to as int),
        spans_match(text@, old(spans)@, old(entries)@),
        ascending(old(entries)@),
    ensures
        spans_match(text@, final(spans)@, final(entries)@),
        ascending(final(entries)@),
        attribute_map(final(entries)@) == attribute_map(old(entries)@).insert(name@, value@),
{
    let mut at: usize = 0;
    while at < entries.len()
        invariant
            at <= entries@.len(),
            from <= to <= text@.len(),
            name@ == text@.subrange(from as int, to as int),
            spans_match(text@, spans@, entries@),
            ascending(entries@),
            spans@ == old(spans)@,
            entries@ == old(entries)@,
            forall|i: int| 0 <= i < at ==> key_less(#[trigger] entries@[i].0@, name@),
        decreases entries@.len() - at,
    {
        let (span_from, span_to) = spans[at];
        assert(spans@[at as int].0 == span_from);
        match rank_spans(text, span_from, span_to, from, to) {
            Rank::Before => {
                at += 1;
            },
            Rank::Same => {
                proof {
                    lemma_replace_entry(entries@, at as int, (name, value));
                }
                entries.set(at, (name, value));
                return ;
            },
            Rank::After => {
                proof {
                    lemma_insert_entry(entries@, at as int, (name, value));
                }
                entries.insert(at, (name, value));
                spans.insert(at, (from, to));
                proof {
                    assert forall|i: int| 0 <= i < spans@.len() implies (#[trigger] spans@[i]).0
                        <= spans@[i].1 <= text@.len() && entries@[i].0@ == text@.subrange(
                        spans@[i].0 as int,
                        spans@[i].1 as int,
                    ) by {
                        if i != at {
                            let i0 = if i < at { i } else { i - 1 };
                            assert(spans@[i] == old(spans)@[i0]);
                            assert(entries@[i] == old(entries)@[i0]);
                        }
                    }
                }
                return ;
            },
        }
    }
    proof {
        lemma_insert_entry(entries@, at as int, (name, value));
        assert(entries@.insert(at as int, (name, value)) =~= entries@.push((name, value)));
        assert(spans@.insert(at as int, (from, to)) =~= spans@.push((from, to)));
    }
    entries.push((name, value));
    spans.push((from, to));
}

/// Parses an attribute at `pos`, and returns where its name ends in
/// place of the name.
fn parse_named_value(text: &[char], pos: usize) -> (r: Parsed<(usize, Expression)>)
    requires
        pos <= text@.len(),
    ensures
        match r {
            Ok(((name_end, value), end)) => attribute(text@, pos as int) == Ok::<
                _,
                (FailureKind, int),
            >(((text@.subrange(pos as int, name_end as int), value@), end as int)) && pos
                < name_end < end,
            Err(failure) => attribute(text@, pos as int) == Err::<
                ((Seq<char>, ExpressionView), int),
                _,
            >((failure.kind, failure.at as int)),
        },
        in_bounds(r, pos, text@.len()),
{
    let name_end = scan(text, pos, CharClass::Identifier);
    if name_end <= pos {
        return Err(Failure::mismatch(pos));
    }
    if !has_char_at(text, name_end, '=') {
        return Err(Failure::mismatch(name_end));
    }
    if !has_char_at(text, name_end + 1, '[') {
        return Err(Failure::mismatch(name_end + 1));
    }
    let (value, end) = parse_expression(text, name_end + 2)?;
    if has_char_at(text, end, ']') {
        Ok(((name_end, value), end + 1))
    } else {
        Err(Failure::mismatch(end))
    }
}

/// Parses an attribute at `pos`.
pub fn parse_attribute(text: &[char], pos: usize) -> (r: Parsed<(String, Expression)>)
    requires
        pos <= text@.len(),
    ensures
        step_of(r) == attribute(text@, pos as int),
        in_bounds(r, pos, text@.len()),
        r matches Ok((_, end)) ==> pos < end,
{
    let ((name_end, value), end) = parse_named_value(text, pos)?;
    Ok(((text_of(text, pos, name_end), value), end))
}

/// Parses the name and the attributes of an operator at `pos`, where the
/// name begins.
pub fn parse_operator_line(text: &[char], pos: usize) -> (r: Parsed<
    (String, Vec<(String, Expression)>),
>)
    requires
        pos <= text@.len(),
    ensures
        match r {
            Ok(((name, entries), end)) => operator_line(text@, pos as int) == Ok::<
                _,
                (FailureKind, int),
            >(((name@, attribute_map(entries@)), end as int)) && ascending(entries@) && pos < end,
            Err(failure) => operator_line(text@, pos as int) == Err::<
                ((Seq<char>, Map<Seq<char>, ExpressionView>), int),
                _,
            >((failure.kind, failure.at as int)),
        },
        in_bounds(r, pos, text@.len()),
{
    let name_end = scan(text, pos, CharClass::Letter);
    if name_end <= pos {
        return Err(Failure::mismatch(pos));
    }
    if !has_char_at(text, name_end, '(') {
        return Err(Failure::mismatch(name_end));
    }
    let (entries, list_end) = parse_attributes(text, name_end + 1)?;
    match skip_tag(text, list_end, ")\n") {
        Some(end) => Ok(((text_of(text, pos, name_end), entries), end)),
        None => Err(Failure::mismatch(list_end)),
    }
}

/// Parses the attributes of an operator at `pos`.
fn parse_attributes(text: &[char], pos: usize) -> (r: Parsed<Vec<(String, Expression)>>)
    requires
        pos <= text@.len(),
    ensures
        match r {
            Ok((entries, end)) => attributes(text@, pos as int) == Ok::<_, (FailureKind, int)>(
                (attribute_map(entries@), end as int),
            ) && ascending(entries@),
            Err(failure) => attributes(text@, pos as int) == Err::<
                (Map<Seq<char>, ExpressionView>, int),
                _,
            >((failure.kind, failure.at as int)),
        },
        in_bounds(r, pos, text@.len()),
{
    let mut entries: Vec<(String, Expression)> = Vec::new();
    let mut spans: Vec<(usize, usize)> = Vec::new();
    proof {
        assert(attribute_map(entries@) =~= Map::empty());
    }
    let mut at: usize = pos;
    match parse_named_value(text, pos) {
        Ok(((name_end, value), end)) => {
            let name = text_of(text, pos, name_end);
            insert_attribute(text, &mut spans, &mut entries, pos, name_end, name, value);
            at = end;
        },
        Err(failure) => {
            if failure.is_mismatch() {
                return Ok((entries, pos));
            }
            return Err(failure);
        },
    }
    loop
        invariant
            pos <= at <= text@.len(),
            spans_match(text@, spans@, entries@),
            ascending(entries@),
            attributes(text@, pos as int) == more_attributes(
                text@,
                at as int,
                attribute_map(entries@),
            ),
        decreases text@.len() - at,
    {
        let start = match skip_tag(text, at, ", ") {
            Some(end) => end,
            None => {
                return Ok((entries, at));
            },
        };
        match parse_named_value(text, start) {
            Ok(((name_end, value), end)) => {
                let name = text_of(text, start, name_end);
                insert_attribute(text, &mut spans, &mut entries, start, name_end, name, value);
                at = end;
            },
            Err(failure) => {
                if failure.is_mismatch() {
                    return Ok((entries, at));
                }
                return Err(failure);
            },
        }
    }
}

} // verus!
