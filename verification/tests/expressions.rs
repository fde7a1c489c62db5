use query_plan::expression::{
    parse_bi_op, parse_binding, parse_cast_expression, parse_expression, parse_field,
    parse_fqname, parse_hash_dist, parse_identifier, parse_number, parse_projection, parse_type,
    parse_type_lit, parse_until_unbalanced_bracket,
};
use query_plan::text::to_chars;
use query_plan::{Expression, Failure, FailureKind};

fn mismatch(at: usize) -> Failure {
    Failure { kind: FailureKind::GrammarMismatch, at }
}

fn overflow(at: usize) -> Failure {
    Failure { kind: FailureKind::NumericOverflow, at }
}

fn binding(name: &str) -> Expression {
    Expression::Binding { name: name.to_string() }
}

fn unknown(raw: &str) -> Expression {
    Expression::Unknown(raw.to_string())
}

#[test]
fn identifier_takes_letters_digits_and_underscores() {
    let text = to_chars("account_id0=[x]");
    assert_eq!(parse_identifier(&text, 0), Ok(("account_id0".to_string(), 11)));
    assert_eq!(parse_identifier(&text, 11), Err(mismatch(11)));
    assert_eq!(parse_identifier(&text, 8), Ok(("id0".to_string(), 11)));
}

#[test]
fn identifier_takes_unicode_letters() {
    let text = to_chars("größe٣ rest");
    assert_eq!(parse_identifier(&text, 0), Ok(("größe٣".to_string(), 6)));
}

#[test]
fn identifier_fails_at_the_end_of_the_text() {
    let text = to_chars("ab");
    assert_eq!(parse_identifier(&text, 2), Err(mismatch(2)));
}

#[test]
fn opaque_text_stops_at_the_first_unmatched_bracket() {
    let text = to_chars("a[b]c]d");
    assert_eq!(parse_until_unbalanced_bracket(&text, 0), Ok((unknown("a[b]c"), 5)));
}

#[test]
fn opaque_text_runs_to_the_end_without_an_unmatched_bracket() {
    let text = to_chars("[[a], b");
    assert_eq!(parse_until_unbalanced_bracket(&text, 0), Ok((unknown("[[a], b"), 7)));
    let empty = to_chars("");
    assert_eq!(parse_until_unbalanced_bracket(&empty, 0), Ok((unknown(""), 0)));
}

#[test]
fn opaque_text_is_empty_in_front_of_a_closing_bracket() {
    let text = to_chars("]x");
    assert_eq!(parse_until_unbalanced_bracket(&text, 0), Ok((unknown(""), 0)));
}

#[test]
fn fqname_reads_its_segments_in_order() {
    let text = to_chars("[default_catalog, default_database, t]");
    assert_eq!(
        parse_fqname(&text, 0),
        Ok((
            Expression::FQName {
                name: vec![
                    "default_catalog".to_string(),
                    "default_database".to_string(),
                    "t".to_string()
                ]
            },
            38
        ))
    );
}

#[test]
fn fqname_allows_blanks_around_commas_only() {
    let text = to_chars("[a ,\tb,c]");
    assert_eq!(
        parse_fqname(&text, 0),
        Ok((
            Expression::FQName {
                name: vec!["a".to_string(), "b".to_string(), "c".to_string()]
            },
            9
        ))
    );
    let spaced = to_chars("[a ]");
    assert_eq!(parse_fqname(&spaced, 0), Err(mismatch(2)));
    let leading = to_chars("[ a]");
    assert_eq!(parse_fqname(&leading, 0), Err(mismatch(1)));
}

#[test]
fn fqname_may_be_empty() {
    let text = to_chars("[]");
    assert_eq!(parse_fqname(&text, 0), Ok((Expression::FQName { name: vec![] }, 2)));
}

#[test]
fn fqname_leaves_a_dangling_comma_unread() {
    let text = to_chars("[a, ]");
    assert_eq!(parse_fqname(&text, 0), Err(mismatch(2)));
    let no_bracket = to_chars("a, b");
    assert_eq!(parse_fqname(&no_bracket, 0), Err(mismatch(0)));
}

#[test]
fn type_with_and_without_parameters() {
    let plain = to_chars("INT)");
    assert_eq!(parse_type(&plain, 0), Ok(("INT".to_string(), 3)));
    let one = to_chars("TIMESTAMP(3))");
    assert_eq!(parse_type(&one, 0), Ok(("TIMESTAMP(3)".to_string(), 12)));
    let two = to_chars("DECIMAL(10,2)");
    assert_eq!(parse_type(&two, 0), Ok(("DECIMAL(10,2)".to_string(), 13)));
}

#[test]
fn type_ignores_malformed_parameters() {
    let empty = to_chars("INT()");
    assert_eq!(parse_type(&empty, 0), Ok(("INT".to_string(), 3)));
    let open = to_chars("INT(3");
    assert_eq!(parse_type(&open, 0), Ok(("INT".to_string(), 3)));
    let spaced = to_chars("INT(3, 4)");
    assert_eq!(parse_type(&spaced, 0), Ok(("INT".to_string(), 3)));
    let none = to_chars("(3)");
    assert_eq!(parse_type(&none, 0), Err(mismatch(0)));
}

#[test]
fn cast_parsing() {
    let text = to_chars("CAST(transaction_time AS TIMESTAMP(3))");
    assert_eq!(
        parse_cast_expression(&text, 0),
        Ok((
            Expression::CastExpression {
                input: "transaction_time".to_string(),
                cast_type: "TIMESTAMP(3)".to_string()
            },
            38
        ))
    );
}

#[test]
fn cast_allows_white_space_between_its_parts() {
    let text = to_chars("CAST \n(x\tAS\n INT  ) tail");
    assert_eq!(
        parse_cast_expression(&text, 0),
        Ok((
            Expression::CastExpression { input: "x".to_string(), cast_type: "INT".to_string() },
            19
        ))
    );
}

#[test]
fn cast_fails_where_a_part_is_missing() {
    assert_eq!(parse_cast_expression(&to_chars("cast(x AS INT)"), 0), Err(mismatch(0)));
    assert_eq!(parse_cast_expression(&to_chars("CAST x AS INT)"), 0), Err(mismatch(5)));
    assert_eq!(parse_cast_expression(&to_chars("CAST( x AS INT)"), 0), Err(mismatch(5)));
    assert_eq!(parse_cast_expression(&to_chars("CAST(x TO INT)"), 0), Err(mismatch(7)));
    assert_eq!(parse_cast_expression(&to_chars("CAST(x AS )"), 0), Err(mismatch(10)));
    assert_eq!(parse_cast_expression(&to_chars("CAST(x AS INT"), 0), Err(mismatch(13)));
    assert_eq!(parse_cast_expression(&to_chars("CAST(xAS INT)"), 0), Err(mismatch(9)));
}

#[test]
fn hash_distribution_parsing() {
    let text = to_chars("hash[account_id]]");
    assert_eq!(
        parse_hash_dist(&text, 0),
        Ok((Expression::HashDistribution("account_id".to_string()), 16))
    );
    assert_eq!(parse_hash_dist(&to_chars("hash(account_id)"), 0), Err(mismatch(4)));
    assert_eq!(parse_hash_dist(&to_chars("hash[]"), 0), Err(mismatch(5)));
    assert_eq!(parse_hash_dist(&to_chars("hash[a, b]"), 0), Err(mismatch(6)));
    assert_eq!(parse_hash_dist(&to_chars("has[a]"), 0), Err(mismatch(0)));
}

#[test]
fn typed_literal_parsing() {
    let text = to_chars("5000:INTERVAL SECOND)");
    assert_eq!(
        parse_type_lit(&text, 0),
        Ok((
            Expression::TypedLiteral { value: 5000, _type: "INTERVAL SECOND".to_string() },
            20
        ))
    );
}

#[test]
fn typed_literal_needs_digits_a_colon_and_a_closing_parenthesis() {
    assert_eq!(parse_type_lit(&to_chars("x:INT)"), 0), Err(mismatch(0)));
    assert_eq!(parse_type_lit(&to_chars("12 :INT)"), 0), Err(mismatch(2)));
    assert_eq!(parse_type_lit(&to_chars("12:INT"), 0), Err(mismatch(3)));
    assert_eq!(
        parse_type_lit(&to_chars("12:)"), 0),
        Ok((Expression::TypedLiteral { value: 12, _type: "".to_string() }, 3))
    );
}

#[test]
fn typed_literal_at_the_limits_of_sixteen_bits() {
    assert_eq!(
        parse_type_lit(&to_chars("32767:X)"), 0),
        Ok((Expression::TypedLiteral { value: 32767, _type: "X".to_string() }, 7))
    );
    assert_eq!(parse_type_lit(&to_chars("32768:X)"), 0), Err(overflow(0)));
    assert_eq!(parse_type_lit(&to_chars("99999999999999999999999:X)"), 0), Err(overflow(0)));
    assert_eq!(
        parse_type_lit(&to_chars("000032767:X)"), 0),
        Ok((Expression::TypedLiteral { value: 32767, _type: "X".to_string() }, 11))
    );
}

#[test]
fn typed_literal_with_too_many_digits_and_no_colon_is_a_mismatch() {
    assert_eq!(parse_type_lit(&to_chars("99999)"), 0), Err(mismatch(5)));
}

#[test]
fn number_parsing() {
    assert_eq!(parse_number(&to_chars("1000)"), 0), Ok((Expression::NumLiteral(1000), 4)));
    assert_eq!(parse_number(&to_chars("0"), 0), Ok((Expression::NumLiteral(0), 1)));
    assert_eq!(parse_number(&to_chars("32767"), 0), Ok((Expression::NumLiteral(32767), 5)));
    assert_eq!(parse_number(&to_chars("abc"), 0), Err(mismatch(0)));
    assert_eq!(parse_number(&to_chars(""), 0), Err(mismatch(0)));
    assert_eq!(parse_number(&to_chars("-5"), 0), Err(mismatch(0)));
}

#[test]
fn number_that_does_not_fit_ends_the_parse() {
    assert_eq!(parse_number(&to_chars("32768"), 0), Err(overflow(0)));
    assert_eq!(parse_number(&to_chars("x 70000"), 2), Err(overflow(2)));
}

#[test]
fn number_written_with_other_numeric_characters_ends_the_parse() {
    assert_eq!(parse_number(&to_chars("٣"), 0), Err(overflow(0)));
    assert_eq!(parse_number(&to_chars("1²"), 0), Err(overflow(0)));
}

#[test]
fn binding_keeps_the_dollar_sign() {
    assert_eq!(parse_binding(&to_chars("$4, 1000"), 0), Ok((binding("$4"), 2)));
    assert_eq!(parse_binding(&to_chars("amount)"), 0), Ok((binding("amount"), 6)));
    assert_eq!(parse_binding(&to_chars("$"), 0), Err(mismatch(1)));
    assert_eq!(parse_binding(&to_chars("$$a"), 0), Err(mismatch(1)));
    assert_eq!(parse_binding(&to_chars("(a)"), 0), Err(mismatch(0)));
}

#[test]
fn field_prefers_cast_then_typed_literal_then_binding() {
    assert_eq!(
        parse_field(&to_chars("CAST(a AS INT)"), 0),
        Ok((
            Expression::CastExpression { input: "a".to_string(), cast_type: "INT".to_string() },
            14
        ))
    );
    assert_eq!(
        parse_field(&to_chars("5:DAY)"), 0),
        Ok((Expression::TypedLiteral { value: 5, _type: "DAY".to_string() }, 5))
    );
    assert_eq!(parse_field(&to_chars("CAST"), 0), Ok((binding("CAST"), 4)));
    assert_eq!(parse_field(&to_chars("12"), 0), Ok((binding("12"), 2)));
    assert_eq!(parse_field(&to_chars("$1"), 0), Ok((binding("$1"), 2)));
    assert_eq!(parse_field(&to_chars("(1)"), 0), Err(mismatch(0)));
    assert_eq!(parse_field(&to_chars("70000:DAY)"), 0), Err(overflow(0)));
}

#[test]
fn projection_of_three_bindings() {
    let text = to_chars("a, b, c]");
    assert_eq!(
        parse_projection(&text, 0),
        Ok((
            Expression::Projection {
                fields: vec![
                    Box::new(binding("a")),
                    Box::new(binding("b")),
                    Box::new(binding("c"))
                ]
            },
            7
        ))
    );
}

#[test]
fn projection_of_positional_bindings() {
    assert_eq!(
        parse_projection(&to_chars("$0, $1]"), 0),
        Ok((
            Expression::Projection {
                fields: vec![Box::new(binding("$0")), Box::new(binding("$1"))]
            },
            6
        ))
    );
}

#[test]
fn projection_needs_two_fields() {
    assert_eq!(parse_projection(&to_chars("a]"), 0), Err(mismatch(1)));
    assert_eq!(parse_projection(&to_chars("a, ]"), 0), Err(mismatch(3)));
    assert_eq!(parse_projection(&to_chars("]"), 0), Err(mismatch(0)));
}

#[test]
fn projection_needs_the_closing_bracket_after_its_last_field() {
    assert_eq!(parse_projection(&to_chars("a, b"), 0), Err(mismatch(4)));
    assert_eq!(parse_projection(&to_chars("a, b, ]"), 0), Err(mismatch(4)));
    assert_eq!(parse_projection(&to_chars("a,b]"), 0), Err(mismatch(1)));
    assert_eq!(parse_projection(&to_chars("a, b )"), 0), Err(mismatch(4)));
}

#[test]
fn projection_of_mixed_fields() {
    let text = to_chars("account_id, CAST(t AS TIMESTAMP(3)), 7]");
    assert_eq!(
        parse_projection(&text, 0),
        Ok((
            Expression::Projection {
                fields: vec![
                    Box::new(binding("account_id")),
                    Box::new(Expression::CastExpression {
                        input: "t".to_string(),
                        cast_type: "TIMESTAMP(3)".to_string()
                    }),
                    Box::new(binding("7"))
                ]
            },
            38
        ))
    );
}

#[test]
fn projection_with_an_overflowing_literal_ends_the_parse() {
    assert_eq!(parse_projection(&to_chars("a, 70000:X), b]"), 0), Err(overflow(3)));
    assert_eq!(parse_projection(&to_chars("a, b, 70000:X)]"), 0), Err(overflow(6)));
}

#[test]
fn binary_operation_parsing() {
    let text = to_chars(">($4, 1000)");
    assert_eq!(parse_bi_op(&text, 0), Err(mismatch(11)));
    assert_eq!(parse_expression(&text, 0), Ok((unknown(">($4, 1000)"), 11)));
}

#[test]
fn binary_operation_stops_where_its_first_operand_ends() {
    assert_eq!(parse_bi_op(&to_chars("=(a], b)"), 0), Err(mismatch(3)));
    assert_eq!(parse_bi_op(&to_chars("+(a, b)"), 0), Err(mismatch(0)));
    assert_eq!(parse_bi_op(&to_chars("= (a, b)"), 0), Err(mismatch(1)));
    assert_eq!(parse_bi_op(&to_chars("<=(a, b)"), 0), Err(mismatch(1)));
    assert_eq!(parse_bi_op(&to_chars("-"), 0), Err(mismatch(1)));
}

#[test]
fn ambiguity_precedence() {
    let text = to_chars("[default_catalog, default_database, t]");
    assert_eq!(
        parse_expression(&text, 0),
        Ok((unknown("[default_catalog, default_database, t]"), 38))
    );
}

#[test]
fn expression_is_opaque_whatever_stands_there() {
    for source in [
        "a, b, c]",
        "CAST(transaction_time AS TIMESTAMP(3))",
        "hash[account_id]",
        "5000:INTERVAL SECOND)",
        "$0",
        "1000",
        "99999",
        "",
    ] {
        let text = to_chars(source);
        assert_eq!(
            parse_expression(&text, 0),
            parse_until_unbalanced_bracket(&text, 0),
            "{}",
            source
        );
    }
    assert_eq!(parse_expression(&to_chars("a, b, c]"), 0), Ok((unknown("a, b, c"), 7)));
    assert_eq!(parse_expression(&to_chars("99999"), 0), Ok((unknown("99999"), 5)));
}

#[test]
fn parsing_may_start_inside_the_text() {
    let text = to_chars("x=[hash[c]], y=[CAST(a AS B)]");
    assert_eq!(
        parse_hash_dist(&text, 3),
        Ok((Expression::HashDistribution("c".to_string()), 10))
    );
    assert_eq!(
        parse_cast_expression(&text, 16),
        Ok((
            Expression::CastExpression { input: "a".to_string(), cast_type: "B".to_string() },
            28
        ))
    );
    assert_eq!(parse_expression(&text, 3), Ok((unknown("hash[c]"), 10)));
    assert_eq!(parse_expression(&text, 29), Ok((unknown(""), 29)));
}
