use query_plan::attributes::{
    insert_attribute, parse_attribute, parse_operator_line, rank_spans, Rank,
};
use query_plan::text::to_chars;
use query_plan::tree::{parse_operator, parse_operator_ident, parse_roots};
use query_plan::{Expression, Failure, FailureKind, Operator};

fn mismatch(at: usize) -> Failure {
    Failure { kind: FailureKind::GrammarMismatch, at }
}

fn unknown(raw: &str) -> Expression {
    Expression::Unknown(raw.to_string())
}

fn entry(name: &str, raw: &str) -> (String, Expression) {
    (name.to_string(), unknown(raw))
}

fn tree(name: &str, children: Vec<Operator>) -> Operator {
    Operator {
        name: name.to_string(),
        attributes: vec![],
        children: children.into_iter().map(Box::new).collect(),
    }
}

#[test]
fn names_are_ranked_by_their_characters() {
    let text = to_chars("abc abd ab abc B a é z");
    assert_eq!(rank_spans(&text, 0, 3, 4, 7), Rank::Before);
    assert_eq!(rank_spans(&text, 4, 7, 0, 3), Rank::After);
    assert_eq!(rank_spans(&text, 0, 3, 11, 14), Rank::Same);
    assert_eq!(rank_spans(&text, 8, 10, 0, 3), Rank::Before);
    assert_eq!(rank_spans(&text, 0, 3, 8, 10), Rank::After);
    assert_eq!(rank_spans(&text, 15, 16, 17, 18), Rank::Before);
    assert_eq!(rank_spans(&text, 19, 20, 21, 22), Rank::After);
    assert_eq!(rank_spans(&text, 3, 3, 7, 7), Rank::Same);
    assert_eq!(rank_spans(&text, 3, 3, 0, 1), Rank::Before);
    assert_eq!(rank_spans(&text, 0, 1, 3, 3), Rank::After);
}

#[test]
fn names_are_ranked_as_strings_are_ordered() {
    let words = ["", "a", "ab", "abc", "b", "B", "_", "z", "é", "a1", "a_", "Z9", "的", "😀"];
    let joined: String = words.join(" ");
    let text = to_chars(&joined);
    let mut spans = Vec::new();
    let mut at = 0;
    for word in words {
        let len = word.chars().count();
        spans.push((at, at + len));
        at += len + 1;
    }
    for (i, a) in words.iter().enumerate() {
        for (j, b) in words.iter().enumerate() {
            let expected = if a < b {
                Rank::Before
            } else if a > b {
                Rank::After
            } else {
                Rank::Same
            };
            assert_eq!(
                rank_spans(&text, spans[i].0, spans[i].1, spans[j].0, spans[j].1),
                expected,
                "{:?} and {:?}",
                a,
                b
            );
        }
    }
}

#[test]
fn attributes_are_inserted_at_their_place() {
    let text = to_chars("m a z m b");
    let mut spans = Vec::new();
    let mut entries = Vec::new();
    insert_attribute(&text, &mut spans, &mut entries, 0, 1, "m".to_string(), unknown("1"));
    assert_eq!(entries, vec![entry("m", "1")]);
    insert_attribute(&text, &mut spans, &mut entries, 2, 3, "a".to_string(), unknown("2"));
    assert_eq!(entries, vec![entry("a", "2"), entry("m", "1")]);
    insert_attribute(&text, &mut spans, &mut entries, 4, 5, "z".to_string(), unknown("3"));
    assert_eq!(entries, vec![entry("a", "2"), entry("m", "1"), entry("z", "3")]);
    insert_attribute(&text, &mut spans, &mut entries, 6, 7, "m".to_string(), unknown("4"));
    assert_eq!(entries, vec![entry("a", "2"), entry("m", "4"), entry("z", "3")]);
    insert_attribute(&text, &mut spans, &mut entries, 8, 9, "b".to_string(), unknown("5"));
    assert_eq!(
        entries,
        vec![entry("a", "2"), entry("b", "5"), entry("m", "4"), entry("z", "3")]
    );
    assert_eq!(spans.len(), entries.len());
}

#[test]
fn attribute_parsing() {
    let text = to_chars("table=[[a, b]], next");
    assert_eq!(parse_attribute(&text, 0), Ok((entry("table", "[a, b]"), 14)));
    assert_eq!(parse_attribute(&text, 2), Ok((entry("ble", "[a, b]"), 14)));
    assert_eq!(parse_attribute(&text, 16), Err(mismatch(20)));
}

#[test]
fn attribute_needs_its_brackets() {
    assert_eq!(parse_attribute(&to_chars("=[a]"), 0), Err(mismatch(0)));
    assert_eq!(parse_attribute(&to_chars("k [a]"), 0), Err(mismatch(1)));
    assert_eq!(parse_attribute(&to_chars("k=a"), 0), Err(mismatch(2)));
    assert_eq!(parse_attribute(&to_chars("k=[a"), 0), Err(mismatch(4)));
    assert_eq!(parse_attribute(&to_chars("k=[[a]"), 0), Err(mismatch(6)));
    assert_eq!(parse_attribute(&to_chars("k=[]"), 0), Ok((entry("k", ""), 4)));
    assert_eq!(parse_attribute(&to_chars("k=[a]]"), 0), Ok((entry("k", "a"), 5)));
}

#[test]
fn operator_line_parsing() {
    let text = to_chars("Join(joinType=[inner], condition=[=($0, $3)])\nnext");
    assert_eq!(
        parse_operator_line(&text, 0),
        Ok((
            ("Join".to_string(), vec![entry("condition", "=($0, $3)"), entry("joinType", "inner")]),
            46
        ))
    );
    assert_eq!(
        parse_operator_line(&to_chars("Scan()\n"), 0),
        Ok((("Scan".to_string(), vec![]), 7))
    );
}

#[test]
fn operator_line_needs_the_line_break() {
    assert_eq!(parse_operator_line(&to_chars("Scan()"), 0), Err(mismatch(5)));
    assert_eq!(parse_operator_line(&to_chars("Scan()\r\n"), 0), Err(mismatch(5)));
    assert_eq!(parse_operator_line(&to_chars("Scan() \n"), 0), Err(mismatch(5)));
    assert_eq!(parse_operator_line(&to_chars("Scan(a=[1],)\n"), 0), Err(mismatch(10)));
    assert_eq!(parse_operator_line(&to_chars("Scan(a=[1], )\n"), 0), Err(mismatch(10)));
    assert_eq!(parse_operator_line(&to_chars("Scan2()\n"), 0), Err(mismatch(4)));
    assert_eq!(parse_operator_line(&to_chars("+Scan()\n"), 0), Err(mismatch(0)));
    assert_eq!(parse_operator_line(&to_chars(""), 0), Err(mismatch(0)));
}

#[test]
fn depth_is_the_length_of_the_prefix() {
    let text = to_chars(":  +- Scan()\nJoin()\n");
    assert_eq!(parse_operator_ident(&text, 0), (6, 6));
    assert_eq!(parse_operator_ident(&text, 6), (0, 6));
    assert_eq!(parse_operator_ident(&text, 10), (3, 13));
    assert_eq!(parse_operator_ident(&text, 18), (2, 20));
    assert_eq!(parse_operator_ident(&text, 20), (0, 20));
}

#[test]
fn operator_with_its_subtree() {
    let text = to_chars("A()\n +- B()\n    +- C()\n +- D()\nE()\n");
    assert_eq!(
        parse_operator(&text, 0),
        Ok((tree("A", vec![tree("B", vec![tree("C", vec![])]), tree("D", vec![])]), 31))
    );
    assert_eq!(parse_operator(&text, 4), Ok((tree("B", vec![tree("C", vec![])]), 23)));
    assert_eq!(parse_operator(&text, 12), Ok((tree("C", vec![]), 23)));
    assert_eq!(parse_operator(&text, 31), Ok((tree("E", vec![]), 35)));
    assert_eq!(parse_operator(&text, 35), Err(mismatch(35)));
}

#[test]
fn operator_stops_at_a_line_that_is_no_operator() {
    let text = to_chars("A()\n  B()\n  oops\n  C()\n");
    assert_eq!(parse_operator(&text, 0), Ok((tree("A", vec![tree("B", vec![])]), 10)));
    assert_eq!(parse_operator(&text, 10), Err(mismatch(16)));
}

#[test]
fn forest_of_roots() {
    let text = to_chars("  A()\nB()\n C()\nD()\n== Optimized Physical Plan ==\n");
    assert_eq!(
        parse_roots(&text, 0),
        Ok((vec![tree("A", vec![]), tree("B", vec![tree("C", vec![])]), tree("D", vec![])], 19))
    );
    assert_eq!(parse_roots(&text, 19), Ok((vec![], 19)));
    assert_eq!(parse_roots(&to_chars(""), 0), Ok((vec![], 0)));
}
