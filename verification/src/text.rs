//! Characters, character classes and the elementary scanners that the
//! grammar is built from.  The text being parsed is a slice of `char`s and
//! every position is an index into it.

use vstd::prelude::*;

verus! {

/// Whether `c` is alphabetic or numeric in the sense of Unicode, as
/// `char::is_alphanumeric` decides it.
pub uninterp spec fn unicode_alphanumeric(c: char) -> bool;

/// Whether `c` belongs to one of the Unicode number categories, as
/// `char::is_numeric` decides it.
pub uninterp spec fn unicode_numeric(c: char) -> bool;

/// Whether `c` has the Unicode `White_Space` property, as
/// `char::is_whitespace` decides it.
pub uninterp spec fn unicode_white_space(c: char) -> bool;

/// `char::is_alphanumeric` of the standard library.  Its answer is a
/// property of the character alone; the contract only gives it a name.
pub assume_specification[ char::is_alphanumeric ](c: char) -> (b: bool)
    ensures
        b == unicode_alphanumeric(c),
;

/// `char::is_numeric` of the standard library.  Its answer is a property
/// of the character alone; the contract only gives it a name.
pub assume_specification[ char::is_numeric ](c: char) -> (b: bool)
    ensures
        b == unicode_numeric(c),
;

/// `char::is_whitespace` of the standard library.  Its answer is a
/// property of the character alone; the contract only gives it a name.
pub assume_specification[ char::is_whitespace ](c: char) -> (b: bool)
    ensures
        b == unicode_white_space(c),
;

/// `String::push` of the standard library: appends one character to the
/// end of the string and changes nothing else.
pub assume_specification[ String::push ](s: &mut String, ch: char)
    ensures
        final(s)@ == old(s)@.push(ch),
;

/// The sets of characters that the grammar scans runs of.
#[derive(Debug, Clone, Copy, PartialEq, Eq, Structural)]
pub enum CharClass {
    /// Space and tab.
    Blank,
    /// Space, tab, carriage return and line feed.
    Space,
    /// The ASCII letters.
    Letter,
    /// The ASCII decimal digits.
    Digit,
    /// Unicode letters and numbers, and the underscore.
    Identifier,
    /// Unicode numbers.
    Numeric,
    /// Unicode numbers and the comma: the inside of `TIMESTAMP(3)`.
    TypeParameter,
    /// Everything that is not a Unicode letter or number: the glyphs
    /// that draw the tree in front of an operator's name.
    Indentation,
    /// Unicode white space.
    WhiteSpace,
}

pub open spec fn class_has(class: CharClass, c: char) -> bool {
    match class {
        CharClass::Blank => c == ' ' || c == '\t',
        CharClass::Space => c == ' ' || c == '\t' || c == '\r' || c == '\n',
        CharClass::Letter => ('a' <= c && c <= 'z') || ('A' <= c && c <= 'Z'),
        CharClass::Digit => '0' <= c && c <= '9',
        CharClass::Identifier => unicode_alphanumeric(c) || c == '_',
        CharClass::Numeric => unicode_numeric(c),
        CharClass::TypeParameter => unicode_numeric(c) || c == ',',
        CharClass::Indentation => !unicode_alphanumeric(c),
        CharClass::WhiteSpace => unicode_white_space(c),
    }
}

impl CharClass {
    /// Decides membership of `c` in the class.
    pub fn has(self, c: char) -> (b: bool)
        ensures
            b == class_has(self, c),
    {
        match self {
            CharClass::Blank => c == ' ' || c == '\t',
            CharClass::Space => c == ' ' || c == '\t' || c == '\r' || c == '\n',
            CharClass::Letter => ('a' <= c && c <= 'z') || ('A' <= c && c <= 'Z'),
            CharClass::Digit => '0' <= c && c <= '9',
            CharClass::Identifier => c.is_alphanumeric() || c == '_',
            CharClass::Numeric => c.is_numeric(),
            CharClass::TypeParameter => c.is_numeric() || c == ',',
            CharClass::Indentation => !c.is_alphanumeric(),
            CharClass::WhiteSpace => c.is_whitespace(),
        }
    }
}

/// The end of the longest run of `class` characters that starts at `pos`:
/// `pos` itself where the character there is of another class or the text
/// has ended.
pub open spec fn run_end(s: Seq<char>, pos: int, class: CharClass) -> int
    decreases s.len() - pos,
{
    if 0 <= pos < s.len() && class_has(class, s[pos]) {
        run_end(s, pos + 1, class)
    } else {
        pos
    }
}

/// A run ends at or after its start, inside the text, at a character of
/// another class, and holds characters of its class only.
pub broadcast proof fn lemma_run_end(s: Seq<char>, pos: int, class: CharClass)
    requires
        0 <= pos <= s.len(),
    ensures
        pos <= #[trigger] run_end(s, pos, class) <= s.len(),
        forall|i: int| pos <= i < run_end(s, pos, class) ==> class_has(class, #[trigger] s[i]),
        run_end(s, pos, class) < s.len() ==> !class_has(class, s[run_end(s, pos, class)]),
    decreases s.len() - pos,
{
    if pos < s.len() && class_has(class, s[pos]) {
        lemma_run_end(s, pos + 1, class);
    }
}

/// Whether `tag` stands in `s` at `pos`.
pub open spec fn has_tag(s: Seq<char>, pos: int, tag: Seq<char>) -> bool {
    0 <= pos && pos + tag.len() <= s.len() && s.subrange(pos, pos + tag.len()) == tag
}

/// Whether the character `c` stands in `s` at `pos`.
pub open spec fn has_char(s: Seq<char>, pos: int, c: char) -> bool {
    0 <= pos < s.len() && s[pos] == c
}

/// The first position at or after `pos`, and before the end of the text,
/// where `tag` stands, if there is one.
pub open spec fn find_tag(s: Seq<char>, pos: int, tag: Seq<char>) -> Option<int>
    decreases s.len() - pos,
{
    if pos < 0 || pos >= s.len() || pos + tag.len() > s.len() {
        None
    } else if has_tag(s, pos, tag) {
        Some(pos)
    } else {
        find_tag(s, pos + 1, tag)
    }
}

/// What `find_tag` finds lies between `pos` and the end of the text, and
/// the tag stands there and nowhere before.
pub proof fn lemma_find_tag(s: Seq<char>, pos: int, tag: Seq<char>)
    requires
        0 <= pos,
    ensures
        match find_tag(s, pos, tag) {
            Some(at) => pos <= at < s.len() && at + tag.len() <= s.len() && has_tag(s, at, tag)
                && forall|i: int| pos <= i < at ==> !has_tag(s, i, tag),
            None => forall|i: int| pos <= i < s.len() ==> !has_tag(s, i, tag),
        },
    decreases s.len() - pos,
{
    if pos < s.len() && pos + tag.len() <= s.len() && !has_tag(s, pos, tag) {
        lemma_find_tag(s, pos + 1, tag);
    }
}

/// The characters of a string slice, in order.
pub fn to_chars(input: &str) -> (chars: Vec<char>)
    ensures
        chars@ == input@,
{
    let mut chars: Vec<char> = Vec::new();
    for c in it: input.chars()
        invariant
            chars@ == it.seq().take(it.index() as int),
            it.seq() == input@,
    {
        chars.push(c);
    }
    chars
}

/// The part of `text` from `from` up to `to`, as a string.
pub fn text_of(text: &[char], from: usize, to: usize) -> (out: String)
    requires
        from <= to <= text@.len(),
    ensures
        out@ == text@.subrange(from as int, to as int),
{
    let mut out = String::new();
    let mut i: usize = from;
    while i < to
        invariant
            from <= i <= to <= text@.len(),
            out@ == text@.subrange(from as int, i as int),
        decreases to - i,
    {
        out.push(text[i]);
        i += 1;
    }
    out
}

/// Scans the longest run of `class` characters from `pos` and returns
/// where it ends.
pub fn scan(text: &[char], pos: usize, class: CharClass) -> (end: usize)
    requires
        pos <= text@.len(),
    ensures
        end == run_end(text@, pos as int, class),
        pos <= end <= text@.len(),
{
    let mut i: usize = pos;
    while i < text.len() && class.has(text[i])
        invariant
            pos <= i <= text@.len(),
            run_end(text@, pos as int, class) == run_end(text@, i as int, class),
        decreases text@.len() - i,
    {
        i += 1;
    }
    i
}

/// Tests whether `tag` stands in `text` at `pos`.
pub fn starts_with(text: &[char], pos: usize, tag: &str) -> (b: bool)
    requires
        pos <= text@.len(),
    ensures
        b == has_tag(text@, pos as int, tag@),
{
    let mut i: usize = pos;
    for c in it: tag.chars()
        invariant
            it.seq() == tag@,
            i == pos + it.index(),
            i <= text@.len(),
            text@.subrange(pos as int, i as int) == tag@.take(it.index() as int),
    {
        if i >= text.len() || text[i] != c {
            proof {
                if i < text@.len() && pos + tag@.len() <= text@.len() {
                    assert(text@.subrange(pos as int, pos + tag@.len())[i - pos] == text@[i as int]);
                }
            }
            return false;
        }
        proof {
            assert(text@.subrange(pos as int, i + 1) =~= text@.subrange(pos as int, i as int).push(
                text@[i as int],
            ));
            assert(tag@.take(it.index() + 1) =~= tag@.take(it.index() as int).push(c));
        }
        i += 1;
    }
    proof {
        assert(tag@.take(tag@.len() as int) =~= tag@);
    }
    true
}

/// Steps over `tag` where it stands in `text` at `pos`, and returns the
/// position after it.
pub fn skip_tag(text: &[char], pos: usize, tag: &str) -> (end: Option<usize>)
    requires
        pos <= text@.len(),
    ensures
        end is Some == has_tag(text@, pos as int, tag@),
        end matches Some(e) ==> e == pos + tag@.len(),
{
    if starts_with(text, pos, tag) {
        let n = tag.unicode_len();
        assert(pos + n <= text.len());
        Some(pos + n)
    } else {
        None
    }
}

/// Tests whether the character `c` stands in `text` at `pos`.
pub fn has_char_at(text: &[char], pos: usize, c: char) -> (b: bool)
    ensures
        b == has_char(text@, pos as int, c),
        b ==> pos < usize::MAX,
{
    pos < text.len() && text[pos] == c
}

/// Tests whether the part of `text` from `from` up to `to` reads `word`.
pub fn span_is(text: &[char], from: usize, to: usize, word: &str) -> (b: bool)
    requires
        from <= to <= text@.len(),
    ensures
        b == (text@.subrange(from as int, to as int) == word@),
{
    let hit = starts_with(text, from, word);
    let n = word.unicode_len();
    hit && to - from == n
}

/// Searches `text` from `pos` on for the first place where `tag` stands,
/// and returns that place and the position after the tag.
pub fn find(text: &[char], pos: usize, tag: &str) -> (found: Option<(usize, usize)>)
    requires
        pos <= text@.len(),
    ensures
        match found {
            Some((at, end)) => find_tag(text@, pos as int, tag@) == Some(at as int) && pos <= at
                && end == at + tag@.len() && end <= text@.len(),
            None => find_tag(text@, pos as int, tag@) is None,
        },
{
    let mut i: usize = pos;
    while i < text.len()
        invariant
            pos <= i <= text@.len(),
            find_tag(text@, pos as int, tag@) == find_tag(text@, i as int, tag@),
        decreases text@.len() - i,
    {
        match skip_tag(text, i, tag) {
            Some(end) => {
                return Some((i, end));
            },
            None => {},
        }
        i += 1;
    }
    None
}

} // verus!
