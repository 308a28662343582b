use sigma_rule_parser::detection::{Condition, PARSER_TYPES};
use sigma_rule_parser::grammar::SyntaxReason;
use sigma_rule_parser::parser::SyntaxError;
use sigma_rule_parser::search_id_parser::{
    parser_str_builder, search_identifiers, search_identifiers_parser,
};

#[test]
fn search_identifier_condition() {
    let result = search_identifiers_parser("Selection");
    assert_eq!(
        result,
        Ok((
            "",
            Condition {
                parser_type: Some(PARSER_TYPES::SEARCH_IDENTIFIER),
                parser_result: Some(vec!["Selection".to_string()]),
                is_negated: None,
                operator: None,
                search_identifier: Some("Selection".to_string()),
                nested_detections: None
            }
        ))
    );

    let result = search_identifiers_parser("Selection and not Filter");
    assert_eq!(
        result,
        Ok((
            " and not Filter",
            Condition {
                parser_type: Some(PARSER_TYPES::SEARCH_IDENTIFIER),
                parser_result: Some(vec!["Selection".to_string()]),
                is_negated: None,
                operator: None,
                search_identifier: Some("Selection".to_string()),
                nested_detections: None
            }
        ))
    );

    let result = search_identifiers_parser("");
    assert_eq!(result, Err(SyntaxError { position: 0, reason: SyntaxReason::ExpectedTerm }));
}

#[test]
fn search_identifier_input() {
    let mid_condition_parser_result = search_identifiers(" Selection and not Filter ");
    assert_eq!(mid_condition_parser_result, Ok((" and not Filter", "Selection")));

    let end_of_condition_parser_result = search_identifiers(" Events ");
    assert_eq!(end_of_condition_parser_result, Ok(("", "Events")));

    let empty_string_parser_result = search_identifiers("");
    assert_eq!(
        empty_string_parser_result,
        Err(SyntaxError { position: 0, reason: SyntaxReason::ExpectedTerm })
    );

    let empty_string_parser_result = search_identifiers("    ");
    assert_eq!(
        empty_string_parser_result,
        Err(SyntaxError { position: 0, reason: SyntaxReason::ExpectedTerm })
    );
}

#[test]
fn search_identifiers_agree_with_the_combinators_they_stand_for() {
    for input in [" Selection and not Filter ", " Events ", "a", "a  b", "sel* x"] {
        let expected: nom::IResult<&str, &str> = nom::branch::alt((
            nom::bytes::complete::take_until(" "),
            nom::combinator::rest,
        ))(input.trim());
        assert_eq!(search_identifiers(input).ok(), expected.ok());
    }
}

#[test]
fn a_search_identifier_ends_at_a_parenthesis_or_pipe() {
    assert_eq!(search_identifiers("selection) or x"), Ok((") or x", "selection")));
    assert_eq!(search_identifiers("selection(x"), Ok(("(x", "selection")));
    assert_eq!(search_identifiers("selection| count()"), Ok(("| count()", "selection")));
    assert_eq!(search_identifiers("a\tb"), Ok(("\tb", "a")));
}

#[test]
fn no_search_identifier_where_no_name_starts() {
    let no_term = Err(SyntaxError { position: 0, reason: SyntaxReason::ExpectedTerm });
    assert_eq!(search_identifiers("(selection)"), no_term);
    assert_eq!(search_identifiers(") or x"), no_term);
    assert_eq!(search_identifiers("| count()"), no_term);
    assert_eq!(search_identifiers(" \t "), no_term);
    let no_term = Err(SyntaxError { position: 0, reason: SyntaxReason::ExpectedTerm });
    assert_eq!(search_identifiers_parser("(a)"), no_term);
    assert_eq!(search_identifiers_parser("   "), no_term);
}

#[test]
fn a_reserved_word_is_no_search_identifier() {
    let reserved = Err(SyntaxError { position: 0, reason: SyntaxReason::ReservedWord });
    for input in ["and", "OR x", " not filter", "of", "Them", "1 of them", "all of x", "and)"] {
        assert_eq!(search_identifiers(input), reserved, "{}", input);
    }
    let reserved = Err(SyntaxError { position: 0, reason: SyntaxReason::ReservedWord });
    assert_eq!(search_identifiers_parser("and filter"), reserved);
    assert_eq!(search_identifiers("android"), Ok(("", "android")));
    assert_eq!(search_identifiers("all_of x"), Ok((" x", "all_of")));
    assert_eq!(search_identifiers("1st"), Ok(("", "1st")));
}

#[test]
fn parser_str_builder_joins_with_spaces() {
    let pieces = |list: &[&str]| Some(list.iter().map(|s| s.to_string()).collect::<Vec<String>>());
    assert_eq!(parser_str_builder(pieces(&["or", "not", "filter"])), "or not filter");
    assert_eq!(parser_str_builder(pieces(&["Selection"])), "Selection");
    assert_eq!(parser_str_builder(pieces(&[])), "");
    assert_eq!(parser_str_builder(pieces(&["", ""])), " ");
}
