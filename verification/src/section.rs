//! The section parser and the entry point: headers of the form
//! `== <title> ==`, each with the forest that follows it.

use vstd::prelude::*;
use crate::failure::{
    in_bounds, is_mismatch, mismatch, step_of, Failure, FailureKind, ParseFailure, Parsed, Step,
};
use crate::plan::{plans_of, QueryPlan, QueryPlanView, QueryPlans, Section};
use crate::text::{
    class_has, find, find_tag, has_tag, lemma_find_tag, lemma_run_end, run_end, scan, skip_tag,
    span_is, to_chars, CharClass,
};
use crate::tree::{lemma_roots_advance, parse_roots, roots};

verus! {

/// Where the white space at the end of `title` begins, at or after
/// `floor`.
pub open spec fn trim_end(title: Seq<char>, floor: int, end: int) -> int
    decreases end - floor,
{
    if floor < end <= title.len() && class_has(CharClass::WhiteSpace, title[end - 1]) {
        trim_end(title, floor, end - 1)
    } else {
        end
    }
}

/// A title without the white space at its ends.
pub open spec fn trimmed(title: Seq<char>) -> Seq<char> {
    let start = run_end(title, 0, CharClass::WhiteSpace);
    title.subrange(start, trim_end(title, start, title.len() as int))
}

/// The section that a trimmed title names, if it names one.
pub open spec fn section_titled(title: Seq<char>) -> Option<Section> {
    if title == "Abstract Syntax Tree"@ {
        Some(Section::AbstractSyntaxTree)
    } else if title == "Optimized Physical Plan"@ {
        Some(Section::OptimizedPhysicalPlan)
    } else if title == "Optimized Execution Plan"@ {
        Some(Section::OptimizedExecutionPlan)
    } else {
        None
    }
}

/// A section header: `==`, a title, `==`, with optional white space
/// before each and after the last.  The title is what stands before the
/// next `==`.  A header whose title names no section ends the parse.
pub open spec fn section_header(s: Seq<char>, pos: int) -> Step<Section> {
    let open = run_end(s, pos, CharClass::Space);
    if !has_tag(s, open, "=="@) {
        mismatch(open)
    } else {
        let title_start = run_end(s, open + "=="@.len(), CharClass::Space);
        match find_tag(s, title_start, "=="@) {
            None => mismatch(title_start),
            Some(title_end) => match section_titled(trimmed(s.subrange(title_start, title_end))) {
                None => Err((FailureKind::UnrecognizedSection, title_start)),
                Some(section) => Ok(
                    (section, run_end(s, title_end + "=="@.len(), CharClass::Space)),
                ),
            },
        }
    }
}

/// A section: its header and the forest under it, which may be empty.
pub open spec fn full_section(s: Seq<char>, pos: int) -> Step<QueryPlanView> {
    match section_header(s, pos) {
        Err(e) => Err(e),
        Ok((section, forest_start)) => match roots(s, forest_start, Seq::empty()) {
            Err(e) => Err(e),
            Ok((operators, end)) => Ok((QueryPlanView { section, operators }, end)),
        },
    }
}

/// A section header that matches ends after its start, inside the text.
pub proof fn lemma_section_header_advances(s: Seq<char>, pos: int)
    requires
        0 <= pos <= s.len(),
    ensures
        section_header(s, pos) matches Ok((_, end)) ==> pos < end <= s.len(),
        section_header(s, pos) matches Err((_, at)) ==> pos <= at <= s.len(),
{
    broadcast use lemma_run_end;

    reveal_strlit("==");
    let open = run_end(s, pos, CharClass::Space);
    if has_tag(s, open, "=="@) {
        let title_start = run_end(s, open + "=="@.len(), CharClass::Space);
        lemma_find_tag(s, title_start, "=="@);
    }
}

/// A section that matches ends after its start, inside the text.
pub proof fn lemma_full_section_advances(s: Seq<char>, pos: int)
    requires
        0 <= pos <= s.len(),
    ensures
        full_section(s, pos) matches Ok((_, end)) ==> pos < end <= s.len(),
        full_section(s, pos) matches Err((_, at)) ==> pos <= at <= s.len(),
{
    lemma_section_header_advances(s, pos);
    match section_header(s, pos) {
        Err(_) => {},
        Ok((_, forest_start)) => {
            lemma_roots_advance(s, forest_start, Seq::empty());
        },
    }
}

/// The sections that follow the first one, up to the first text that is
/// no section header.
pub open spec fn more_sections(s: Seq<char>, pos: int, acc: Seq<QueryPlanView>) -> Step<
    Seq<QueryPlanView>,
>
    decreases s.len() - pos,
{
    match full_section(s, pos) {
        Ok((plan, end)) => {
            proof {
                if 0 <= pos <= s.len() {
                    lemma_full_section_advances(s, pos);
                }
            }
            more_sections(s, end, acc.push(plan))
        },
        Err(e) => if is_mismatch::<QueryPlanView>(Err(e)) {
            Ok((acc, pos))
        } else {
            Err(e)
        },
    }
}

/// The position after the line break at `pos`, or `pos` where there is
/// none.
pub open spec fn after_line_break(s: Seq<char>, pos: int) -> int {
    if has_tag(s, pos, "\n"@) {
        pos + "\n"@.len()
    } else if has_tag(s, pos, "\r\n"@) {
        pos + "\r\n"@.len()
    } else {
        pos
    }
}

/// A report: an optional line break, one or more sections, an optional
/// line break.  It fails where the first section fails, and where a
/// later header has an unknown title.
pub open spec fn query_plans(s: Seq<char>) -> Step<Seq<QueryPlanView>> {
    match full_section(s, after_line_break(s, 0)) {
        Err(e) => Err(e),
        Ok((first, first_end)) => match more_sections(s, first_end, seq![first]) {
            Err(e) => Err(e),
            Ok((plans, end)) => Ok((plans, after_line_break(s, end))),
        },
    }
}

/// The sections read after `acc` are appended to it, and end between
/// their start and the end of the text.
pub proof fn lemma_more_sections_advance(s: Seq<char>, pos: int, acc: Seq<QueryPlanView>)
    requires
        0 <= pos <= s.len(),
    ensures
        more_sections(s, pos, acc) matches Ok((plans, end)) ==> pos <= end <= s.len()
            && plans.len() >= acc.len(),
        more_sections(s, pos, acc) matches Err((_, at)) ==> pos <= at <= s.len(),
    decreases s.len() - pos,
{
    lemma_full_section_advances(s, pos);
    match full_section(s, pos) {
        Ok((plan, end)) => {
            lemma_more_sections_advance(s, end, acc.push(plan));
        },
        Err(_) => {},
    }
}

/// Finds the part of `text` between `from` and `to` that is left when
/// the white space at both ends is taken away.
fn trim(text: &[char], from: usize, to: usize) -> (r: (usize, usize))
    requires
        from <= to <= text@.len(),
    ensures
        from <= r.0 <= r.1 <= to,
        text@.subrange(r.0 as int, r.1 as int) == trimmed(text@.subrange(from as int, to as int)),
{
    let ghost title = text@.subrange(from as int, to as int);
    let mut start: usize = from;
    while start < to && CharClass::WhiteSpace.has(text[start])
        invariant
            from <= start <= to <= text@.len(),
            title == text@.subrange(from as int, to as int),
            run_end(title, 0, CharClass::WhiteSpace) == run_end(
                title,
                start - from,
                CharClass::WhiteSpace,
            ),
        decreases to - start,
    {
        assert(title[start - from] == text@[start as int]);
        start += 1;
    }
    proof {
        if start < to {
            assert(title[start - from] == text@[start as int]);
        }
    }
    let mut end: usize = to;
    while end > start && CharClass::WhiteSpace.has(text[end - 1])
        invariant
            from <= start <= end <= to <= text@.len(),
            title == text@.subrange(from as int, to as int),
            trim_end(title, start - from, title.len() as int) == trim_end(
                title,
                start - from,
                end - from,
            ),
        decreases end - start,
    {
        assert(title[end - 1 - from] == text@[end - 1]);
        end -= 1;
    }
    proof {
        if end > start {
            assert(title[end - 1 - from] == text@[end - 1]);
        }
        assert(title.subrange(start - from, end - from) =~= text@.subrange(
            start as int,
            end as int,
        ));
    }
    (start, end)
}

/// Parses a section header at `pos`.
pub fn parse_section(text: &[char], pos: usize) -> (r: Parsed<Section>)
    requires
        pos <= text@.len(),
    ensures
        step_of(r) == section_header(text@, pos as int),
        in_bounds(r, pos, text@.len()),
        r matches Ok((_, end)) ==> pos < end,
{
    proof {
        lemma_section_header_advances(text@, pos as int);
    }
    let open = scan(text, pos, CharClass::Space);
    let after_open = match skip_tag(text, open, "==") {
        Some(end) => end,
        None => {
            return Err(Failure::mismatch(open));
        },
    };
    let title_start = scan(text, after_open, CharClass::Space);
    let (title_end, after_close) = match find(text, title_start, "==") {
        Some(found) => found,
        None => {
            return Err(Failure::mismatch(title_start));
        },
    };
    let end = scan(text, after_close, CharClass::Space);
    let (from, to) = trim(text, title_start, title_end);
    let section = if span_is(text, from, to, "Abstract Syntax Tree") {
        Section::AbstractSyntaxTree
    } else if span_is(text, from, to, "Optimized Physical Plan") {
        Section::OptimizedPhysicalPlan
    } else if span_is(text, from, to, "Optimized Execution Plan") {
        Section::OptimizedExecutionPlan
    } else {
        return Err(Failure { kind: FailureKind::UnrecognizedSection, at: title_start });
    };
    Ok((section, end))
}

/// Parses a section at `pos`: its header and the forest under it.
pub fn parse_full_section(text: &[char], pos: usize) -> (r: Parsed<QueryPlan>)
    requires
        pos <= text@.len(),
    ensures
        step_of(r) == full_section(text@, pos as int),
        in_bounds(r, pos, text@.len()),
        r matches Ok((plan, end)) ==> plan.wf() && pos < end,
{
    let (section, forest_start) = parse_section(text, pos)?;
    let (operators, end) = parse_roots(text, forest_start)?;
    Ok((QueryPlan { section, operators }, end))
}

/// Steps over the line break at `pos`, if one stands there.
fn skip_line_break(text: &[char], pos: usize) -> (end: usize)
    requires
        pos <= text@.len(),
    ensures
        end == after_line_break(text@, pos as int),
        pos <= end <= text@.len(),
{
    match skip_tag(text, pos, "\n") {
        Some(end) => {
            return end;
        },
        None => {},
    }
    match skip_tag(text, pos, "\r\n") {
        Some(end) => end,
        None => pos,
    }
}

/// Parses the sections that follow those in `plans`, from `pos` on.
fn parse_more_sections(text: &[char], pos: usize, plans: Vec<QueryPlan>) -> (r: Parsed<
    Vec<QueryPlan>,
>)
    requires
        pos <= text@.len(),
        forall|i: int| 0 <= i < plans@.len() ==> (#[trigger] plans@[i]).wf(),
    ensures
        match r {
            Ok((all, end)) => more_sections(text@, pos as int, plans_of(plans@)) == Ok::<
                _,
                (FailureKind, int),
            >((plans_of(all@), end as int)) && all@.len() >= plans@.len() && forall|i: int|
                0 <= i < all@.len() ==> (#[trigger] all@[i]).wf(),
            Err(failure) => more_sections(text@, pos as int, plans_of(plans@)) == Err::<
                (Seq<QueryPlanView>, int),
                _,
            >((failure.kind, failure.at as int)),
        },
        in_bounds(r, pos, text@.len()),
{
    let mut all = plans;
    let mut at: usize = pos;
    loop
        invariant
            pos <= at <= text@.len(),
            all@.len() >= plans@.len(),
            forall|i: int| 0 <= i < all@.len() ==> (#[trigger] all@[i]).wf(),
            more_sections(text@, pos as int, plans_of(plans@)) == more_sections(
                text@,
                at as int,
                plans_of(all@),
            ),
        decreases text@.len() - at,
    {
        match parse_full_section(text, at) {
            Ok((plan, end)) => {
                let ghost before = plans_of(all@);
                all.push(plan);
                assert(plans_of(all@) =~= before.push(plan@));
                at = end;
            },
            Err(failure) => {
                if failure.is_mismatch() {
                    return Ok((all, at));
                }
                return Err(failure);
            },
        }
    }
}

/// Parses the sections of a report from the start of `text`.
pub fn parse_sections(text: &[char]) -> (r: Parsed<QueryPlans>)
    ensures
        step_of(r) == query_plans(text@),
        in_bounds(r, 0, text@.len()),
        r matches Ok((report, _)) ==> report.wf(),
{
    let start = skip_line_break(text, 0);
    let (first, first_end) = parse_full_section(text, start)?;
    let mut plans: Vec<QueryPlan> = Vec::new();
    plans.push(first);
    assert(plans_of(plans@) =~= seq![first@]);
    let (plans, end) = parse_more_sections(text, first_end, plans)?;
    Ok((QueryPlans { plans }, skip_line_break(text, end)))
}

/// Parses a report.  On success it returns the sections in the order of
/// the text, and the text that was left unread after the last one; on
/// failure, the kind of the failure and the text that was left when it
/// came.
pub fn parse_query_plan<'a>(input: &'a str) -> (r: Result<(&'a str, QueryPlans), ParseFailure<'a>>)
    ensures
        match query_plans(input@) {
            Ok((plans, end)) => r matches Ok((rest, report)) && report@ == plans && report.wf()
                && 0 <= end <= input@.len() && rest@ == input@.skip(end),
            Err((kind, at)) => r matches Err(failure) && failure.kind == kind && 0 <= at
                <= input@.len() && failure.remaining@ == input@.skip(at),
        },
{
    let text = to_chars(input);
    match parse_sections(text.as_slice()) {
        Ok((report, end)) => Ok((input.substring_char(end, text.len()), report)),
        Err(failure) => Err(
            ParseFailure {
                kind: failure.kind,
                remaining: input.substring_char(failure.at, text.len()),
            },
        ),
    }
}

} // verus!
