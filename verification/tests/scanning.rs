use query_plan::number::read_numeral;
use query_plan::text::{
    find, has_char_at, scan, skip_tag, span_is, starts_with, text_of, to_chars, CharClass,
};

#[test]
fn chars_of_a_string_in_order() {
    assert_eq!(to_chars("a=[é]"), vec!['a', '=', '[', 'é', ']']);
    assert_eq!(to_chars(""), Vec::<char>::new());
    assert_eq!(to_chars("▶ x").len(), 3);
}

#[test]
fn text_of_a_span() {
    let text = to_chars("héllo wörld");
    assert_eq!(text_of(&text, 0, 5), "héllo");
    assert_eq!(text_of(&text, 6, 11), "wörld");
    assert_eq!(text_of(&text, 3, 3), "");
    assert_eq!(text_of(&text, 0, 11), "héllo wörld");
}

#[test]
fn scan_stops_at_the_first_character_of_another_class() {
    let text = to_chars(" \t\r\n x");
    assert_eq!(scan(&text, 0, CharClass::Blank), 2);
    assert_eq!(scan(&text, 0, CharClass::Space), 5);
    assert_eq!(scan(&text, 5, CharClass::Space), 5);
    assert_eq!(scan(&text, 6, CharClass::Space), 6);
}

#[test]
fn scan_of_letters_and_digits_is_ascii_only() {
    let text = to_chars("abcZé12٣4");
    assert_eq!(scan(&text, 0, CharClass::Letter), 4);
    assert_eq!(scan(&text, 4, CharClass::Letter), 4);
    assert_eq!(scan(&text, 5, CharClass::Digit), 7);
    assert_eq!(scan(&text, 5, CharClass::Numeric), 9);
    assert_eq!(scan(&text, 0, CharClass::Identifier), 9);
}

#[test]
fn scan_of_identifiers_takes_underscores() {
    let text = to_chars("_a_1-b");
    assert_eq!(scan(&text, 0, CharClass::Identifier), 4);
    assert_eq!(scan(&text, 4, CharClass::Identifier), 4);
}

#[test]
fn scan_of_type_parameters_takes_numbers_and_commas() {
    let text = to_chars("10,2) x");
    assert_eq!(scan(&text, 0, CharClass::TypeParameter), 4);
    assert_eq!(scan(&text, 0, CharClass::Numeric), 2);
}

#[test]
fn scan_of_indentation_stops_at_letters_and_numbers() {
    let text = to_chars(":  +- Scan()");
    assert_eq!(scan(&text, 0, CharClass::Indentation), 6);
    let digit = to_chars("  1x");
    assert_eq!(scan(&digit, 0, CharClass::Indentation), 2);
    let drawn = to_chars("│ └─ é");
    assert_eq!(scan(&drawn, 0, CharClass::Indentation), 5);
    let none = to_chars("+-+-");
    assert_eq!(scan(&none, 0, CharClass::Indentation), 4);
}

#[test]
fn scan_of_white_space_follows_unicode() {
    let text = to_chars(" \u{a0}\u{3000}\n\u{2028}x");
    assert_eq!(scan(&text, 0, CharClass::WhiteSpace), 5);
    assert_eq!(scan(&text, 0, CharClass::Space), 1);
}

#[test]
fn class_membership() {
    assert!(CharClass::Blank.has('\t'));
    assert!(!CharClass::Blank.has('\n'));
    assert!(CharClass::Space.has('\r'));
    assert!(!CharClass::Space.has('\u{a0}'));
    assert!(CharClass::Letter.has('q'));
    assert!(!CharClass::Letter.has('1'));
    assert!(!CharClass::Letter.has('`'));
    assert!(!CharClass::Letter.has('{'));
    assert!(!CharClass::Letter.has('@'));
    assert!(!CharClass::Letter.has('['));
    assert!(CharClass::Digit.has('0') && CharClass::Digit.has('9'));
    assert!(!CharClass::Digit.has('/') && !CharClass::Digit.has(':'));
    assert!(CharClass::Identifier.has('_') && CharClass::Identifier.has('ß'));
    assert!(!CharClass::Identifier.has('$'));
    assert!(CharClass::Numeric.has('½') && !CharClass::Numeric.has('a'));
    assert!(CharClass::TypeParameter.has(',') && !CharClass::TypeParameter.has('('));
    assert!(CharClass::Indentation.has('+') && !CharClass::Indentation.has('x'));
    assert!(CharClass::WhiteSpace.has('\u{2003}') && !CharClass::WhiteSpace.has('_'));
}

#[test]
fn tags_are_found_where_they_stand() {
    let text = to_chars("== Title ==");
    assert!(starts_with(&text, 0, "=="));
    assert!(starts_with(&text, 9, "=="));
    assert!(!starts_with(&text, 10, "=="));
    assert!(!starts_with(&text, 11, "=="));
    assert!(!starts_with(&text, 1, "=="));
    assert!(starts_with(&text, 3, "Title"));
    assert!(starts_with(&text, 11, ""));
    assert_eq!(skip_tag(&text, 0, "=="), Some(2));
    assert_eq!(skip_tag(&text, 3, "Title "), Some(9));
    assert_eq!(skip_tag(&text, 3, "Titles"), None);
    assert_eq!(skip_tag(&text, 11, "="), None);
}

#[test]
fn single_characters_are_found_where_they_stand() {
    let text = to_chars("a(b");
    assert!(has_char_at(&text, 1, '('));
    assert!(!has_char_at(&text, 0, '('));
    assert!(!has_char_at(&text, 3, '('));
    assert!(!has_char_at(&text, 100, '('));
}

#[test]
fn spans_are_compared_with_words() {
    let text = to_chars("x Abstract Syntax Tree y");
    assert!(span_is(&text, 2, 22, "Abstract Syntax Tree"));
    assert!(!span_is(&text, 2, 21, "Abstract Syntax Tree"));
    assert!(!span_is(&text, 2, 23, "Abstract Syntax Tree"));
    assert!(!span_is(&text, 1, 21, "Abstract Syntax Tree"));
    assert!(span_is(&text, 5, 5, ""));
    assert!(!span_is(&text, 5, 6, ""));
}

#[test]
fn find_gives_the_first_place_at_or_after_the_start() {
    let text = to_chars("a == b == c");
    assert_eq!(find(&text, 0, "=="), Some((2, 4)));
    assert_eq!(find(&text, 2, "=="), Some((2, 4)));
    assert_eq!(find(&text, 3, "=="), Some((7, 9)));
    assert_eq!(find(&text, 8, "=="), None);
    assert_eq!(find(&text, 11, "=="), None);
    assert_eq!(find(&text, 0, ")"), None);
    let edge = to_chars("x==");
    assert_eq!(find(&edge, 0, "=="), Some((1, 3)));
    let triple = to_chars("===");
    assert_eq!(find(&triple, 0, "=="), Some((0, 2)));
}

#[test]
fn numerals_up_to_the_largest_sixteen_bit_integer() {
    let text = to_chars("0 7 0042 32767 32768 65536 123456789012345678901234567890");
    assert_eq!(read_numeral(&text, 0, 1), Some(0));
    assert_eq!(read_numeral(&text, 2, 3), Some(7));
    assert_eq!(read_numeral(&text, 4, 8), Some(42));
    assert_eq!(read_numeral(&text, 9, 14), Some(32767));
    assert_eq!(read_numeral(&text, 15, 20), None);
    assert_eq!(read_numeral(&text, 21, 26), None);
    assert_eq!(read_numeral(&text, 27, 57), None);
}

#[test]
fn numerals_are_decimal_digits_only() {
    let text = to_chars("12a 1 2 ٣ -1 +1");
    assert_eq!(read_numeral(&text, 0, 2), Some(12));
    assert_eq!(read_numeral(&text, 0, 3), None);
    assert_eq!(read_numeral(&text, 4, 7), None);
    assert_eq!(read_numeral(&text, 8, 9), None);
    assert_eq!(read_numeral(&text, 10, 12), None);
    assert_eq!(read_numeral(&text, 13, 15), None);
    assert_eq!(read_numeral(&text, 5, 5), None);
}
