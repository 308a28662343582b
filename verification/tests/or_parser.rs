use sigma_rule_parser::detection::{Condition, Detection, OPERATOR, PARSER_TYPES};
use sigma_rule_parser::grammar::SyntaxReason;
use sigma_rule_parser::or_parser::{downstream_or_parser, or, or_parser};
use sigma_rule_parser::parser::SyntaxError;
use sigma_rule_parser::search_id_parser::parser_str_builder;

fn pieces(list: &[&str]) -> Option<Vec<String>> {
    Some(list.iter().map(|s| s.to_string()).collect())
}

fn filter_and_not_selection() -> Detection {
    Detection {
        operator: Some(OPERATOR::AND),
        conditions: Some(vec![
            Condition {
                parser_type: Some(PARSER_TYPES::SEARCH_IDENTIFIER),
                parser_result: pieces(&["filter"]),
                is_negated: None,
                operator: None,
                search_identifier: Some("filter".to_string()),
                nested_detections: None,
            },
            Condition {
                parser_type: Some(PARSER_TYPES::AND),
                parser_result: pieces(&["and", "not selection"]),
                is_negated: Some(true),
                operator: Some(OPERATOR::AND),
                search_identifier: Some("selection".to_string()),
                nested_detections: None,
            },
        ]),
    }
}

#[test]
fn or_parens_parser_condition_with_remaining() {
    let result = or_parser("or (filter and not selection) or keywords");
    assert_eq!(
        result,
        Ok((
            " or keywords",
            Condition {
                parser_type: Some(PARSER_TYPES::OR),
                parser_result: pieces(&["or", "(filter and not selection)"]),
                is_negated: None,
                operator: Some(OPERATOR::OR),
                search_identifier: None,
                nested_detections: Some(filter_and_not_selection()),
            }
        ))
    );
    let (_, condition) = result.unwrap();
    assert_eq!(parser_str_builder(condition.parser_result), "or (filter and not selection)");
    let nested = condition.nested_detections.unwrap().conditions.unwrap();
    assert_eq!(parser_str_builder(nested[0].parser_result.clone()), "filter");
    assert_eq!(parser_str_builder(nested[1].parser_result.clone()), "and not selection");
}

#[test]
fn or_parens_parser_condition() {
    let result = or_parser("or (filter and not selection)");
    assert_eq!(
        result,
        Ok((
            "",
            Condition {
                parser_type: Some(PARSER_TYPES::OR),
                parser_result: pieces(&["or", "(filter and not selection)"]),
                is_negated: None,
                operator: Some(OPERATOR::OR),
                search_identifier: None,
                nested_detections: Some(filter_and_not_selection()),
            }
        ))
    );
    let (_, condition) = result.unwrap();
    assert_eq!(parser_str_builder(condition.parser_result), "or (filter and not selection)");
}

#[test]
fn or_not_parser_condition() {
    let result = or_parser("or not filter");
    assert_eq!(
        result,
        Ok((
            "",
            Condition {
                parser_type: Some(PARSER_TYPES::OR),
                parser_result: pieces(&["or", "not filter"]),
                is_negated: Some(true),
                operator: Some(OPERATOR::OR),
                search_identifier: Some("filter".to_string()),
                nested_detections: None,
            }
        ))
    );
    let (_, condition) = result.unwrap();
    assert_eq!(parser_str_builder(condition.parser_result), "or not filter");
}

#[test]
fn or_parser_condition() {
    let result = or_parser("or filter");
    assert_eq!(
        result,
        Ok((
            "",
            Condition {
                parser_type: Some(PARSER_TYPES::OR),
                parser_result: pieces(&["or", "filter"]),
                is_negated: None,
                operator: Some(OPERATOR::OR),
                search_identifier: Some("filter".to_string()),
                nested_detections: None,
            }
        ))
    );
    let (_, condition) = result.unwrap();
    assert_eq!(parser_str_builder(condition.parser_result), "or filter");
}

#[test]
fn or_parens_input() {
    let parser_result = or(" or (events and selection) ");
    assert_eq!(parser_result, Ok((" (events and selection)", "or")));
}

#[test]
fn or_input() {
    let parser_result = or(" or events ");
    assert_eq!(parser_result, Ok((" events", "or")));

    let parser_result = or(" and events ");
    assert_eq!(
        parser_result,
        Err(SyntaxError { position: 0, reason: SyntaxReason::ExpectedOperator })
    );
}

#[test]
fn or_agrees_with_the_combinator_it_stands_for() {
    for input in [" or events ", "or (events and selection)", "OR x", "Or\tx", " and events ", "", "o"] {
        let expected: nom::IResult<&str, &str> =
            nom::bytes::complete::tag_no_case("or")(input.trim());
        match (or(input), expected) {
            (Ok(ours), Ok(theirs)) => assert_eq!(ours, theirs),
            (Err(e), Err(nom::Err::Error(theirs))) => {
                assert_eq!(e.position, 0);
                assert_eq!(theirs.input, input.trim());
                assert_eq!(theirs.code, nom::error::ErrorKind::Tag);
            }
            (ours, theirs) => panic!("{:?} against {:?}", ours, theirs),
        }
    }
}

#[test]
fn or_keeps_the_case_of_the_keyword() {
    assert_eq!(or("OR x"), Ok((" x", "OR")));
    assert_eq!(or("oR\tx"), Ok(("\tx", "oR")));
    assert_eq!(or("or"), Ok(("", "or")));
}

#[test]
fn or_needs_a_word_boundary() {
    let failed = Err(SyntaxError { position: 0, reason: SyntaxReason::ExpectedOperator });
    assert_eq!(or("orange"), failed);
    assert_eq!(or("or(a)"), failed);
    assert_eq!(or(""), failed);
    assert_eq!(or("   "), failed);
}

#[test]
fn or_parser_needs_its_keyword_and_a_term() {
    assert_eq!(
        or_parser("and filter"),
        Err(SyntaxError { position: 0, reason: SyntaxReason::ExpectedOperator })
    );
    assert_eq!(
        or_parser("or"),
        Err(SyntaxError { position: 2, reason: SyntaxReason::ExpectedTerm })
    );
    assert_eq!(
        or_parser("  or  )"),
        Err(SyntaxError { position: 4, reason: SyntaxReason::ExpectedTerm })
    );
    assert_eq!(
        or_parser("or (a and b"),
        Err(SyntaxError { position: 11, reason: SyntaxReason::ExpectedClosingParen })
    );
    assert_eq!(
        or_parser("or and"),
        Err(SyntaxError { position: 3, reason: SyntaxReason::ReservedWord })
    );
}

#[test]
fn or_parser_takes_one_term_only() {
    let (rest, condition) = or_parser("  OR  x and y  ").unwrap();
    assert_eq!(rest, " and y");
    assert_eq!(condition.search_identifier, Some("x".to_string()));
    assert_eq!(parser_str_builder(condition.parser_result), "or x");
}

#[test]
fn downstream_of_or() {
    let (rest, condition) = downstream_or_parser(" not filter or x").unwrap();
    assert_eq!(rest, " or x");
    assert_eq!(
        condition,
        Condition {
            parser_type: Some(PARSER_TYPES::NOT),
            parser_result: pieces(&["not filter"]),
            is_negated: Some(true),
            operator: None,
            search_identifier: Some("filter".to_string()),
            nested_detections: None,
        }
    );
    let (rest, condition) = downstream_or_parser("(filter and not selection)").unwrap();
    assert_eq!(rest, "");
    assert_eq!(condition.parser_type, Some(PARSER_TYPES::PARENS));
    assert_eq!(condition.nested_detections, Some(filter_and_not_selection()));
    let (rest, condition) = downstream_or_parser("filter)").unwrap();
    assert_eq!(rest, ")");
    assert_eq!(condition.parser_type, Some(PARSER_TYPES::SEARCH_IDENTIFIER));
    let (rest, condition) = downstream_or_parser("1 of them or x").unwrap();
    assert_eq!(rest, " or x");
    assert_eq!(condition.parser_type, Some(PARSER_TYPES::ONE_OF_THEM));
    assert_eq!(
        downstream_or_parser(""),
        Err(SyntaxError { position: 0, reason: SyntaxReason::ExpectedTerm })
    );
}
