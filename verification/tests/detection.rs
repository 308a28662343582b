use sigma_rule_parser::compiler::CompileError;
use sigma_rule_parser::detection::{
    initialize_parser, parse_detection, process_condition, process_detection, read_condition,
    Condition, Detection, OPERATOR, PARSER_TYPES,
};
use sigma_rule_parser::detection_builder::build;
use sigma_rule_parser::grammar::SyntaxReason;
use sigma_rule_parser::node::ConditionNode;
use sigma_rule_parser::sigma_rule::{
    find_condition, has_distinct_keys, is_condition_key, search_identifiers_in, DetectionTypes,
    SigmaRule,
};

fn text(value: &str) -> DetectionTypes {
    DetectionTypes::String(value.to_string())
}

fn block(field: &str, value: &str) -> DetectionTypes {
    DetectionTypes::Mapping(Some(vec![(field.to_string(), text(value))]))
}

fn rule(id: &str, detection: Vec<(&str, DetectionTypes)>) -> SigmaRule {
    SigmaRule {
        id: id.to_string(),
        detection: detection.into_iter().map(|(key, value)| (key.to_string(), value)).collect(),
    }
}

fn first(name: &str) -> Condition {
    Condition {
        parser_type: Some(PARSER_TYPES::SEARCH_IDENTIFIER),
        parser_result: Some(vec![name.to_string()]),
        is_negated: None,
        operator: None,
        search_identifier: Some(name.to_string()),
        nested_detections: None,
    }
}

#[test]
fn parse_detection_testdd() {
    let result = parse_detection("Selection");
    println!("{:?}", result);
    assert_eq!(
        result,
        Ok(Detection { operator: None, conditions: Some(vec![first("Selection")]) })
    );

    let result = parse_detection("Not Selection");
    println!("{:?}", result);
    assert_eq!(
        result,
        Ok(Detection {
            operator: None,
            conditions: Some(vec![Condition {
                parser_type: Some(PARSER_TYPES::NOT),
                parser_result: Some(vec!["not Selection".to_string()]),
                is_negated: Some(true),
                operator: None,
                search_identifier: Some("Selection".to_string()),
                nested_detections: None,
            }]),
        })
    );

    let result = parse_detection("Selection and not Filter");
    println!("{:?}", result);
    assert_eq!(
        result,
        Ok(Detection {
            operator: Some(OPERATOR::AND),
            conditions: Some(vec![
                first("Selection"),
                Condition {
                    parser_type: Some(PARSER_TYPES::AND),
                    parser_result: Some(vec!["and".to_string(), "not Filter".to_string()]),
                    is_negated: Some(true),
                    operator: Some(OPERATOR::AND),
                    search_identifier: Some("Filter".to_string()),
                    nested_detections: None,
                },
            ]),
        })
    );

    let result = parse_detection("Selection or not Filter");
    println!("{:?}", result);
    assert_eq!(
        result,
        Ok(Detection {
            operator: Some(OPERATOR::OR),
            conditions: Some(vec![
                first("Selection"),
                Condition {
                    parser_type: Some(PARSER_TYPES::OR),
                    parser_result: Some(vec!["or".to_string(), "not Filter".to_string()]),
                    is_negated: Some(true),
                    operator: Some(OPERATOR::OR),
                    search_identifier: Some("Filter".to_string()),
                    nested_detections: None,
                },
            ]),
        })
    );
}

#[test]
fn initialize_parser_logic() {
    initialize_parser("ok");
}

#[test]
fn read_string_condition() {
    let condition = text("selection and not filter");
    assert_eq!(read_condition(Some(&condition)), "selection and not filter");
    assert_eq!(read_condition(Some(&text(""))), "");
}

#[test]
fn read_condition_of_other_values() {
    assert_eq!(read_condition(Some(&DetectionTypes::Boolean(true))), "condition");
    assert_eq!(read_condition(Some(&DetectionTypes::Number(5))), "condition");
    assert_eq!(read_condition(Some(&DetectionTypes::Sequence(vec![text("a")]))), "");
    assert_eq!(read_condition(Some(&DetectionTypes::Mapping(None))), "");
    assert_eq!(read_condition(Some(&block("Image|endswith", "x.exe"))), "");
}

#[test]
fn operator_keywords() {
    assert_eq!(OPERATOR::AND.as_str(), "and");
    assert_eq!(OPERATOR::OR.as_str(), "or");
}

#[test]
fn new_condition_and_detection_are_blank() {
    assert_eq!(
        Condition::new(),
        Condition {
            parser_type: None,
            parser_result: None,
            is_negated: None,
            operator: None,
            search_identifier: None,
            nested_detections: None,
        }
    );
    assert_eq!(Detection::new(), Detection { operator: None, conditions: None });
}

#[test]
fn parse_detection_keeps_precedence_in_nested_detections() {
    let result = parse_detection("a or b and c").unwrap();
    assert_eq!(result.operator, Some(OPERATOR::OR));
    let conditions = result.conditions.unwrap();
    assert_eq!(conditions.len(), 2);
    assert_eq!(conditions[0], first("a"));
    assert_eq!(
        conditions[1],
        Condition {
            parser_type: Some(PARSER_TYPES::OR),
            parser_result: Some(vec!["or".to_string(), "(b and c)".to_string()]),
            is_negated: None,
            operator: Some(OPERATOR::OR),
            search_identifier: None,
            nested_detections: Some(Detection {
                operator: Some(OPERATOR::AND),
                conditions: Some(vec![
                    first("b"),
                    Condition {
                        parser_type: Some(PARSER_TYPES::AND),
                        parser_result: Some(vec!["and".to_string(), "c".to_string()]),
                        is_negated: None,
                        operator: Some(OPERATOR::AND),
                        search_identifier: Some("c".to_string()),
                        nested_detections: None,
                    },
                ]),
            }),
        }
    );
}

#[test]
fn records_of_single_terms() {
    let term = ConditionNode::OneOfPattern("sel*".to_string());
    assert_eq!(
        Condition::from_term(&term, None),
        Condition {
            parser_type: Some(PARSER_TYPES::ONE_OF),
            parser_result: Some(vec!["1 of sel*".to_string()]),
            is_negated: None,
            operator: None,
            search_identifier: Some("sel*".to_string()),
            nested_detections: None,
        }
    );
    let term = ConditionNode::Not(Box::new(ConditionNode::Not(Box::new(ConditionNode::AllOfThem))));
    assert_eq!(
        Condition::from_term(&term, Some(OPERATOR::AND)),
        Condition {
            parser_type: Some(PARSER_TYPES::AND),
            parser_result: Some(vec!["and".to_string(), "not not all of them".to_string()]),
            is_negated: Some(false),
            operator: Some(OPERATOR::AND),
            search_identifier: None,
            nested_detections: None,
        }
    );
    assert_eq!(
        Condition::from_term(&ConditionNode::OneOfThem, None).parser_type,
        Some(PARSER_TYPES::ONE_OF_THEM)
    );
    assert_eq!(
        Condition::from_term(&ConditionNode::AllOfPattern("x".to_string()), None).parser_type,
        Some(PARSER_TYPES::ALL_OF)
    );
    let group = ConditionNode::Or(vec![
        ConditionNode::Identifier("a".to_string()),
        ConditionNode::Identifier("b".to_string()),
    ]);
    let record = Condition::from_term(&group, None);
    assert_eq!(record.parser_type, Some(PARSER_TYPES::PARENS));
    assert_eq!(record.parser_result, Some(vec!["(a or b)".to_string()]));
    assert_eq!(record.nested_detections, Some(Detection::from_node(&group)));
}

#[test]
fn parse_detection_errors() {
    assert_eq!(parse_detection(""), Err(CompileError::EmptyCondition));
    assert_eq!(
        parse_detection("selection | count() > 5"),
        Err(CompileError::AggregationUnsupported)
    );
    assert_eq!(
        parse_detection("Selection and"),
        Err(CompileError::Syntax(13, SyntaxReason::ExpectedTerm))
    );
    assert_eq!(
        parse_detection("Selection Filter"),
        Err(CompileError::TrailingInput("Filter".to_string()))
    );
}

#[test]
fn process_condition_finds_the_text() {
    let with = rule(
        "1",
        vec![("condition", text("selection")), ("selection", block("a", "b"))],
    );
    assert_eq!(process_condition(&with.detection), Some("selection".to_string()));
    let without = rule("2", vec![("selection", block("a", "b"))]);
    assert_eq!(process_condition(&without.detection), None);
    let empty = rule("3", vec![("condition", text("")), ("selection", block("a", "b"))]);
    assert_eq!(process_condition(&empty.detection), None);
    let sequence = rule(
        "4",
        vec![("condition", DetectionTypes::Sequence(vec![text("selection")]))],
    );
    assert_eq!(process_condition(&sequence.detection), None);
    let boolean = rule("5", vec![("condition", DetectionTypes::Boolean(false))]);
    assert_eq!(process_condition(&boolean.detection), Some("condition".to_string()));
}

#[test]
fn the_condition_is_no_search_block() {
    let rule = rule(
        "1",
        vec![
            ("condition", text("selection and not filter")),
            ("filter", block("User", "SYSTEM")),
            ("selection", block("Image|endswith", "\\mimikatz.exe")),
        ],
    );
    assert_eq!(
        search_identifiers_in(&rule.detection),
        vec!["filter".to_string(), "selection".to_string()]
    );
    assert_eq!(find_condition(&rule.detection), Some(&text("selection and not filter")));
    assert!(is_condition_key("condition"));
    assert!(!is_condition_key("Condition"));
    assert!(!is_condition_key("conditions"));
}

#[test]
fn parse_rule() {
    let mimikatz = rule(
        "06d71506-7beb-4f22-8888-e2e5e2ca7fd8",
        vec![
            ("condition", text("1 of selection* and not filter")),
            ("filter", block("User|contains", "AUTHORI")),
            ("selection_1", block("Image|endswith", "\\mimikatz.exe")),
            ("selection_2", block("CommandLine|contains", "sekurlsa::logonpasswords")),
        ],
    );
    assert_eq!(
        build(&mimikatz),
        Ok(ConditionNode::And(vec![
            ConditionNode::OneOfPattern("selection*".to_string()),
            ConditionNode::Not(Box::new(ConditionNode::Identifier("filter".to_string()))),
        ]))
    );
}

#[test]
fn build_reports_what_the_condition_lacks() {
    let unknown = rule(
        "1",
        vec![("condition", text("selection and keywords")), ("selection", block("a", "b"))],
    );
    assert_eq!(
        build(&unknown),
        Err(CompileError::UnresolvedReference("keywords".to_string()))
    );
    let own_key = rule(
        "2",
        vec![("condition", text("condition")), ("selection", block("a", "b"))],
    );
    assert_eq!(
        build(&own_key),
        Err(CompileError::UnresolvedReference("condition".to_string()))
    );
    let number = rule(
        "3",
        vec![("condition", DetectionTypes::Number(1)), ("selection", block("a", "b"))],
    );
    assert_eq!(
        build(&number),
        Err(CompileError::UnresolvedReference("condition".to_string()))
    );
    let empty = rule("4", vec![("condition", DetectionTypes::Mapping(None))]);
    assert_eq!(build(&empty), Err(CompileError::EmptyCondition));
}

#[test]
fn one_bad_rule_does_not_stop_the_others() {
    let rules = vec![
        rule("good", vec![("condition", text("selection")), ("selection", block("a", "b"))]),
        rule("no condition", vec![("selection", block("a", "b"))]),
        rule("bad", vec![("condition", text("selection and")), ("selection", block("a", "b"))]),
        rule(
            "aggregation",
            vec![("condition", text("selection | count() > 5")), ("selection", block("a", "b"))],
        ),
        rule("last", vec![("condition", text("all of them")), ("x", block("a", "b"))]),
    ];
    assert_eq!(
        process_detection(&rules),
        vec![
            Some(Ok(ConditionNode::Identifier("selection".to_string()))),
            None,
            Some(Err(CompileError::Syntax(13, SyntaxReason::ExpectedTerm))),
            Some(Err(CompileError::AggregationUnsupported)),
            Some(Ok(ConditionNode::AllOfThem)),
        ]
    );
    assert_eq!(process_detection(&Vec::new()), Vec::new());
}

#[test]
fn a_detection_section_holds_no_key_twice() {
    let good = rule(
        "1",
        vec![("condition", text("a")), ("a", block("x", "y")), ("b", block("x", "y"))],
    );
    assert!(has_distinct_keys(&good.detection));
    assert!(good.is_well_formed());
    assert!(rule("2", vec![]).is_well_formed());
    let two_conditions = rule(
        "3",
        vec![("condition", text("a")), ("a", block("x", "y")), ("condition", text("b"))],
    );
    assert!(!has_distinct_keys(&two_conditions.detection));
    assert!(!two_conditions.is_well_formed());
    let repeated_block = rule(
        "4",
        vec![("a", block("x", "y")), ("condition", text("a")), ("a", block("x", "z"))],
    );
    assert!(!repeated_block.is_well_formed());
    let other_case = rule("5", vec![("a", block("x", "y")), ("A", block("x", "y"))]);
    assert!(other_case.is_well_formed());
}

#[test]
fn a_mapping_holds_no_key_twice() {
    let nested = |first: &str, second: &str| {
        DetectionTypes::Sequence(vec![
            text("x"),
            DetectionTypes::Mapping(Some(vec![
                (first.to_string(), text("1")),
                (second.to_string(), DetectionTypes::Mapping(None)),
            ])),
        ])
    };
    assert!(nested("Image", "User").is_well_formed());
    assert!(!nested("Image", "Image").is_well_formed());
    assert!(DetectionTypes::Boolean(true).is_well_formed());
    assert!(DetectionTypes::Mapping(None).is_well_formed());
    assert!(rule("1", vec![("selection", nested("a", "b"))]).is_well_formed());
    assert!(!rule("2", vec![("selection", nested("a", "a"))]).is_well_formed());
}
