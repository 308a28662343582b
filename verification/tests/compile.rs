use sigma_rule_parser::compiler::{compile, first_unresolved_reference, parse_condition, CompileError};
use sigma_rule_parser::grammar::SyntaxReason;
use sigma_rule_parser::node::ConditionNode;
use sigma_rule_parser::parser::{
    parse_and_at, parse_atom_at, parse_not_at, parse_or_at, Input, SyntaxError,
};
use sigma_rule_parser::render::{render, render_as_term};
use sigma_rule_parser::text::{
    char_fold_case, char_is_space, char_is_word, skip_spaces_at, spells_keyword, to_chars,
    trimmed_len_of, word_end_at, Keyword,
};

fn names(list: &[&str]) -> Vec<String> {
    list.iter().map(|s| s.to_string()).collect()
}

fn id(name: &str) -> ConditionNode {
    ConditionNode::Identifier(name.to_string())
}

fn not(inner: ConditionNode) -> ConditionNode {
    ConditionNode::Not(Box::new(inner))
}

#[test]
fn or_binds_looser_than_and() {
    let declared = names(&["a", "b", "c"]);
    let tree = compile("a or b and c", &declared);
    assert_eq!(
        tree,
        Ok(ConditionNode::Or(vec![id("a"), ConditionNode::And(vec![id("b"), id("c")])]))
    );
    assert_ne!(
        tree,
        Ok(ConditionNode::And(vec![ConditionNode::Or(vec![id("a"), id("b")]), id("c")]))
    );
    assert_eq!(
        compile("a and b or c", &declared),
        Ok(ConditionNode::Or(vec![ConditionNode::And(vec![id("a"), id("b")]), id("c")]))
    );
}

#[test]
fn not_binds_tighter_than_and() {
    let declared = names(&["a", "b"]);
    assert_eq!(
        compile("a and not b", &declared),
        Ok(ConditionNode::And(vec![id("a"), not(id("b"))]))
    );
    assert_eq!(
        compile("not a and b", &declared),
        Ok(ConditionNode::And(vec![not(id("a")), id("b")]))
    );
}

#[test]
fn parentheses_override_precedence() {
    let declared = names(&["a", "b", "c"]);
    assert_eq!(
        compile("(a or b) and c", &declared),
        Ok(ConditionNode::And(vec![ConditionNode::Or(vec![id("a"), id("b")]), id("c")]))
    );
    assert_eq!(
        compile("not (a or b)", &declared),
        Ok(not(ConditionNode::Or(vec![id("a"), id("b")])))
    );
}

#[test]
fn parentheses_leave_no_trace() {
    let declared = names(&["a", "b"]);
    assert_eq!(compile("(a)", &declared), Ok(id("a")));
    assert_eq!(compile("((a))", &declared), Ok(id("a")));
    assert_eq!(compile("( a and b )", &declared), compile("a and b", &declared));
    assert_eq!(
        compile("(a and b) and a", &declared),
        Ok(ConditionNode::And(vec![ConditionNode::And(vec![id("a"), id("b")]), id("a")]))
    );
}

#[test]
fn whitespace_is_insignificant() {
    let declared = names(&["a", "b"]);
    let plain = compile("a and b", &declared);
    assert_eq!(plain, Ok(ConditionNode::And(vec![id("a"), id("b")])));
    assert_eq!(compile("a  and   b", &declared), plain);
    assert_eq!(compile(" a and b ", &declared), plain);
    assert_eq!(compile("\ta\nand\r\n b\x0C", &declared), plain);
}

#[test]
fn keywords_in_any_case() {
    let declared = names(&["a", "b", "sel1"]);
    assert_eq!(
        compile("a AND Not b", &declared),
        Ok(ConditionNode::And(vec![id("a"), not(id("b"))]))
    );
    assert_eq!(
        compile("a OR b", &declared),
        Ok(ConditionNode::Or(vec![id("a"), id("b")]))
    );
    assert_eq!(compile("ALL OF THEM", &declared), Ok(ConditionNode::AllOfThem));
    assert_eq!(
        compile("All Of sel*", &declared),
        Ok(ConditionNode::AllOfPattern("sel*".to_string()))
    );
}

#[test]
fn names_keep_their_case() {
    let declared = names(&["Selection", "Filter"]);
    assert_eq!(
        compile("Selection and not Filter", &declared),
        Ok(ConditionNode::And(vec![id("Selection"), not(id("Filter"))]))
    );
    assert_eq!(
        compile("selection", &declared),
        Err(CompileError::UnresolvedReference("selection".to_string()))
    );
}

#[test]
fn double_negation_is_kept() {
    let declared = names(&["x"]);
    assert_eq!(compile("not not x", &declared), Ok(not(not(id("x")))));
}

#[test]
fn quantifiers() {
    let declared = names(&["selection1", "selection2", "filter"]);
    assert_eq!(compile("1 of them", &declared), Ok(ConditionNode::OneOfThem));
    assert_eq!(compile("all of them", &declared), Ok(ConditionNode::AllOfThem));
    assert_eq!(
        compile("1 of selection*", &declared),
        Ok(ConditionNode::OneOfPattern("selection*".to_string()))
    );
    assert_eq!(
        compile("all of selection*", &declared),
        Ok(ConditionNode::AllOfPattern("selection*".to_string()))
    );
    assert_eq!(
        compile("1 of filter", &declared),
        Ok(ConditionNode::OneOfPattern("filter".to_string()))
    );
    assert_eq!(
        compile("(1 of selection*) and not filter", &declared),
        Ok(ConditionNode::And(vec![
            ConditionNode::OneOfPattern("selection*".to_string()),
            not(id("filter"))
        ]))
    );
    assert_eq!(
        compile("1   of\tthem", &declared),
        Ok(ConditionNode::OneOfThem)
    );
}

#[test]
fn rejections() {
    let selection = names(&["selection"]);
    assert_eq!(
        compile("selection | count() > 5", &selection),
        Err(CompileError::AggregationUnsupported)
    );
    assert_eq!(
        compile("unknown_id", &selection),
        Err(CompileError::UnresolvedReference("unknown_id".to_string()))
    );
    assert_eq!(compile("", &selection), Err(CompileError::EmptyCondition));
    assert!(matches!(
        compile("a and", &names(&["a"])),
        Err(CompileError::Syntax(_, _))
    ));
}

#[test]
fn empty_condition() {
    let declared = names(&["a"]);
    assert_eq!(compile("", &declared), Err(CompileError::EmptyCondition));
    assert_eq!(compile("   ", &declared), Err(CompileError::EmptyCondition));
    assert_eq!(compile(" \t\r\n", &declared), Err(CompileError::EmptyCondition));
}

#[test]
fn pipe_is_rejected_before_parsing() {
    let declared = names(&["a"]);
    assert_eq!(compile("|", &declared), Err(CompileError::AggregationUnsupported));
    assert_eq!(compile("a and | b", &declared), Err(CompileError::AggregationUnsupported));
    assert_eq!(compile("(a | count() > 5", &declared), Err(CompileError::AggregationUnsupported));
    assert_eq!(compile("unknown|", &declared), Err(CompileError::AggregationUnsupported));
}

#[test]
fn syntax_errors_with_their_place() {
    let declared = names(&["a", "b"]);
    assert_eq!(
        compile("a and", &declared),
        Err(CompileError::Syntax(5, SyntaxReason::ExpectedTerm))
    );
    assert_eq!(
        compile("a or", &declared),
        Err(CompileError::Syntax(4, SyntaxReason::ExpectedTerm))
    );
    assert_eq!(
        compile("not", &declared),
        Err(CompileError::Syntax(3, SyntaxReason::ExpectedTerm))
    );
    assert_eq!(
        compile("(a or b", &declared),
        Err(CompileError::Syntax(7, SyntaxReason::ExpectedClosingParen))
    );
    assert_eq!(
        compile("(a and) or b", &declared),
        Err(CompileError::Syntax(3, SyntaxReason::ExpectedClosingParen))
    );
    assert_eq!(
        compile(")", &declared),
        Err(CompileError::Syntax(0, SyntaxReason::ExpectedTerm))
    );
    assert_eq!(
        compile("()", &declared),
        Err(CompileError::Syntax(1, SyntaxReason::ExpectedTerm))
    );
    assert_eq!(
        compile("1 selection*", &declared),
        Err(CompileError::Syntax(2, SyntaxReason::ExpectedOf))
    );
    assert_eq!(
        compile("all", &declared),
        Err(CompileError::Syntax(3, SyntaxReason::ExpectedOf))
    );
    assert_eq!(
        compile("1 of", &declared),
        Err(CompileError::Syntax(4, SyntaxReason::ExpectedTarget))
    );
    assert_eq!(
        compile("1 of and", &declared),
        Err(CompileError::Syntax(5, SyntaxReason::ReservedWord))
    );
    assert_eq!(
        compile("and", &declared),
        Err(CompileError::Syntax(0, SyntaxReason::ReservedWord))
    );
    assert_eq!(
        compile("a and or", &declared),
        Err(CompileError::Syntax(6, SyntaxReason::ReservedWord))
    );
    assert_eq!(
        compile("them", &declared),
        Err(CompileError::Syntax(0, SyntaxReason::ReservedWord))
    );
}

#[test]
fn positions_count_from_the_trimmed_text() {
    let declared = names(&["a"]);
    assert_eq!(
        compile("   a and", &declared),
        Err(CompileError::Syntax(5, SyntaxReason::ExpectedTerm))
    );
    assert_eq!(compile("   a and", &declared), compile("a and   ", &declared));
}

#[test]
fn trailing_input() {
    let declared = names(&["a", "b"]);
    assert_eq!(
        compile("a b", &declared),
        Err(CompileError::TrailingInput("b".to_string()))
    );
    assert_eq!(
        compile("a ) or b", &declared),
        Err(CompileError::TrailingInput(") or b".to_string()))
    );
    assert_eq!(
        compile("(a) b and a  ", &declared),
        Err(CompileError::TrailingInput("b and a".to_string()))
    );
    assert_eq!(
        compile("a and(b)", &declared),
        Err(CompileError::TrailingInput("and(b)".to_string()))
    );
}

#[test]
fn a_keyword_needs_its_word_boundary() {
    let declared = names(&["a", "android", "notable", "orange"]);
    assert_eq!(compile("android", &declared), Ok(id("android")));
    assert_eq!(
        compile("notable and orange", &declared),
        Ok(ConditionNode::And(vec![id("notable"), id("orange")]))
    );
    assert_eq!(
        compile("not(a)", &declared),
        Err(CompileError::Syntax(0, SyntaxReason::ReservedWord))
    );
}

#[test]
fn unresolved_references() {
    let declared = names(&["selection1", "selection2", "filter"]);
    assert_eq!(
        compile("selection1 and missing and also_missing", &declared),
        Err(CompileError::UnresolvedReference("missing".to_string()))
    );
    assert_eq!(
        compile("1 of keywords*", &declared),
        Err(CompileError::UnresolvedReference("keywords*".to_string()))
    );
    assert_eq!(
        compile("all of sel*1", &declared),
        Err(CompileError::UnresolvedReference("sel*1".to_string()))
    );
    assert_eq!(
        compile("not (filter or (selection1 and nothing))", &declared),
        Err(CompileError::UnresolvedReference("nothing".to_string()))
    );
    assert_eq!(
        compile("selection*", &declared),
        Err(CompileError::UnresolvedReference("selection*".to_string()))
    );
    assert_eq!(compile("1 of them", &Vec::new()), Ok(ConditionNode::OneOfThem));
}

#[test]
fn a_syntax_error_comes_before_an_unresolved_reference() {
    let declared = names(&["a"]);
    assert_eq!(
        compile("missing and", &declared),
        Err(CompileError::Syntax(11, SyntaxReason::ExpectedTerm))
    );
    assert_eq!(
        compile("missing more", &declared),
        Err(CompileError::TrailingInput("more".to_string()))
    );
}

#[test]
fn parse_condition_looks_up_nothing() {
    assert_eq!(
        parse_condition("x and (1 of y*)"),
        Ok(ConditionNode::And(vec![id("x"), ConditionNode::OneOfPattern("y*".to_string())]))
    );
    assert_eq!(parse_condition(" "), Err(CompileError::EmptyCondition));
    assert_eq!(parse_condition("a | b"), Err(CompileError::AggregationUnsupported));
    assert_eq!(
        parse_condition("a and"),
        Err(CompileError::Syntax(5, SyntaxReason::ExpectedTerm))
    );
    assert_eq!(parse_condition("a b"), Err(CompileError::TrailingInput("b".to_string())));
}

#[test]
fn first_unresolved_reference_reads_from_the_left() {
    let declared = names(&["a", "b1"]);
    let tree = ConditionNode::Or(vec![
        id("a"),
        ConditionNode::And(vec![not(id("x")), id("y")]),
        ConditionNode::OneOfPattern("z*".to_string()),
    ]);
    assert_eq!(first_unresolved_reference(&tree, &declared), Some("x".to_string()));
    let tree = ConditionNode::Or(vec![id("a"), ConditionNode::AllOfPattern("c*".to_string())]);
    assert_eq!(first_unresolved_reference(&tree, &declared), Some("c*".to_string()));
    let tree = ConditionNode::Or(vec![id("a"), ConditionNode::AllOfPattern("b*".to_string())]);
    assert_eq!(first_unresolved_reference(&tree, &declared), None);
    assert_eq!(first_unresolved_reference(&ConditionNode::AllOfThem, &declared), None);
}

#[test]
fn parsers_give_the_position_behind_what_they_read() {
    let input = Input::new("a and b or c) rest");
    assert_eq!(parse_atom_at(&input, 0), Ok((id("a"), 1)));
    assert_eq!(parse_not_at(&input, 0), Ok((id("a"), 1)));
    assert_eq!(
        parse_and_at(&input, 0),
        Ok((ConditionNode::And(vec![id("a"), id("b")]), 7))
    );
    assert_eq!(
        parse_or_at(&input, 0),
        Ok((ConditionNode::Or(vec![ConditionNode::And(vec![id("a"), id("b")]), id("c")]), 12))
    );
    assert_eq!(parse_or_at(&input, 5), Ok((ConditionNode::Or(vec![id("b"), id("c")]), 12)));
    assert_eq!(
        parse_or_at(&input, 12),
        Err(SyntaxError { position: 12, reason: SyntaxReason::ExpectedTerm })
    );
    assert_eq!(
        parse_or_at(&input, 99),
        Err(SyntaxError { position: 99, reason: SyntaxReason::ExpectedTerm })
    );
    assert_eq!(input.len(), 18);
}

#[test]
fn parsers_count_characters_not_bytes() {
    let declared = names(&["séléction", "b"]);
    assert_eq!(
        compile("séléction and", &declared),
        Err(CompileError::Syntax(13, SyntaxReason::ExpectedTerm))
    );
    assert_eq!(
        compile("séléction and b", &declared),
        Ok(ConditionNode::And(vec![id("séléction"), id("b")]))
    );
    assert_eq!(
        compile("séléction é", &declared),
        Err(CompileError::TrailingInput("é".to_string()))
    );
}

#[test]
fn render_gives_the_canonical_text() {
    assert_eq!(render(&id("a")), "a");
    assert_eq!(render(&not(id("a"))), "not a");
    assert_eq!(render(&not(not(id("a")))), "not not a");
    assert_eq!(render(&ConditionNode::And(vec![id("a"), not(id("b"))])), "a and not b");
    assert_eq!(
        render(&ConditionNode::Or(vec![
            id("a"),
            ConditionNode::And(vec![id("b"), id("c")]),
            id("d")
        ])),
        "a or (b and c) or d"
    );
    assert_eq!(
        render(&not(ConditionNode::Or(vec![id("a"), id("b")]))),
        "not (a or b)"
    );
    assert_eq!(render(&ConditionNode::OneOfThem), "1 of them");
    assert_eq!(render(&ConditionNode::AllOfThem), "all of them");
    assert_eq!(render(&ConditionNode::OneOfPattern("sel*".to_string())), "1 of sel*");
    assert_eq!(render(&ConditionNode::AllOfPattern("sel*".to_string())), "all of sel*");
    assert_eq!(
        render_as_term(&ConditionNode::And(vec![id("a"), id("b")])),
        "(a and b)"
    );
    assert_eq!(render_as_term(&id("a")), "a");
}

#[test]
fn round_trip() {
    let declared = names(&["a", "b", "c", "selection1", "selection2", "filter"]);
    let conditions = [
        "a",
        "a or b and c",
        "(a or b) and c",
        "a and not b",
        "NOT   ( a AND b )  OR  c",
        "not not a",
        "1 of them",
        "ALL OF selection*",
        "((a))",
        "(a and b) and (c or (a and (1 of selection*)))",
        "a or (b or c)",
        "all of them and not 1 of filter",
        "selection1 and not filter",
    ];
    for condition in conditions {
        let tree = compile(condition, &declared);
        assert!(tree.is_ok(), "{}", condition);
        let text = render(tree.as_ref().unwrap());
        assert_eq!(compile(&text, &declared), tree, "{}", text);
        assert_eq!(render(compile(&text, &declared).as_ref().unwrap()), text);
    }
}

#[test]
fn a_copy_of_a_tree_is_the_same_tree() {
    let declared = names(&["a", "b", "c"]);
    let tree = compile("not (a or 1 of b*) and all of them and c", &declared).unwrap();
    assert_eq!(tree.clone(), tree);
    assert_eq!(render(&tree.clone()), "not (a or 1 of b*) and all of them and c");
}

#[test]
fn characters_of_the_language() {
    for c in [' ', '\t', '\n', '\r', '\x0C'] {
        assert!(char_is_space(c));
        assert!(!char_is_word(c));
    }
    for c in ['(', ')', '|'] {
        assert!(!char_is_space(c));
        assert!(!char_is_word(c));
    }
    for c in ['a', 'Z', '1', '*', '_', '-', 'é', '\x0B', '\u{a0}'] {
        assert!(!char_is_space(c));
        assert!(char_is_word(c));
    }
    assert_eq!(char_fold_case('A'), 'a');
    assert_eq!(char_fold_case('Z'), 'z');
    assert_eq!(char_fold_case('q'), 'q');
    assert_eq!(char_fold_case('1'), '1');
    assert_eq!(char_fold_case('É'), 'É');
    assert_eq!(char_fold_case('@'), '@');
    assert_eq!(char_fold_case('['), '[');
}

#[test]
fn words_and_keywords() {
    let chars = to_chars("  Not\t(sel1|x)  ");
    assert_eq!(chars.len(), 16);
    assert_eq!(skip_spaces_at(&chars, 0), 2);
    assert_eq!(skip_spaces_at(&chars, 2), 2);
    assert_eq!(word_end_at(&chars, 2), 5);
    assert_eq!(skip_spaces_at(&chars, 5), 6);
    assert_eq!(word_end_at(&chars, 6), 6);
    assert_eq!(word_end_at(&chars, 7), 11);
    assert_eq!(word_end_at(&chars, 12), 13);
    assert_eq!(skip_spaces_at(&chars, 14), 16);
    assert_eq!(skip_spaces_at(&chars, 16), 16);
    assert_eq!(trimmed_len_of(&chars), 14);
    assert_eq!(trimmed_len_of(&to_chars(" \t ")), 0);
    assert_eq!(trimmed_len_of(&to_chars("")), 0);
    assert!(spells_keyword(&chars, 2, 5, Keyword::Not));
    assert!(!spells_keyword(&chars, 2, 5, Keyword::And));
    assert!(!spells_keyword(&chars, 2, 4, Keyword::Not));
    assert!(!spells_keyword(&chars, 7, 10, Keyword::All));
    assert_eq!(Keyword::And.as_str(), "and");
    assert_eq!(Keyword::Or.as_str(), "or");
    assert_eq!(Keyword::Not.as_str(), "not");
    assert_eq!(Keyword::Of.as_str(), "of");
    assert_eq!(Keyword::Them.as_str(), "them");
    assert_eq!(Keyword::One.as_str(), "1");
    assert_eq!(Keyword::All.as_str(), "all");
}

#[test]
fn input_is_read_by_position() {
    let input = Input::new(" a  AND b ");
    assert_eq!(input.len(), 10);
    assert_eq!(input.char_at(1), 'a');
    assert_eq!(input.slice(4, 7), "AND");
    assert_eq!(input.skip_spaces(2), 4);
    assert_eq!(input.word_end(4), 7);
    assert_eq!(input.trimmed_len(), 9);
    assert!(input.keyword_at(4, Keyword::And));
    assert!(!input.keyword_at(4, Keyword::Or));
    assert!(!input.keyword_at(1, Keyword::And));
    assert!(input.is_reserved(4, 7));
    assert!(!input.is_reserved(1, 2));
    assert!(input.spells(4, 7, Keyword::And));
    assert!(input.contains('b'));
    assert!(!input.contains('|'));
    let trimmed = Input::trimmed(" a  AND b ");
    assert_eq!(trimmed.len(), 8);
    assert_eq!(trimmed.slice(0, 8), "a  AND b");
    assert_eq!(Input::trimmed("   ").len(), 0);
    let input = Input::new("andy and");
    assert!(!input.keyword_at(0, Keyword::And));
    assert!(input.keyword_at(5, Keyword::And));
}

#[test]
fn quantifiers_in_parentheses() {
    let declared = names(&["a", "sel1", "sel2"]);
    assert_eq!(compile("(1 of them)", &declared), Ok(ConditionNode::OneOfThem));
    assert_eq!(
        compile("(all of sel*) or not (1 of them)", &declared),
        Ok(ConditionNode::Or(vec![
            ConditionNode::AllOfPattern("sel*".to_string()),
            not(ConditionNode::OneOfThem),
        ]))
    );
    assert_eq!(
        compile("1 of(them)", &declared),
        Err(CompileError::Syntax(4, SyntaxReason::ExpectedTarget))
    );
    assert_eq!(
        compile("1(a)", &declared),
        Err(CompileError::Syntax(1, SyntaxReason::ExpectedOf))
    );
    assert_eq!(
        compile("1 of them*", &declared),
        Err(CompileError::UnresolvedReference("them*".to_string()))
    );
    assert_eq!(
        compile("1 of 1", &declared),
        Err(CompileError::Syntax(5, SyntaxReason::ReservedWord))
    );
}

#[test]
fn more_whitespace_changes_no_tree() {
    let declared = names(&["a", "b", "c", "sel1"]);
    let conditions = [
        "a and b",
        " a or\tb and not c ",
        "not (a or b) and 1 of sel*",
        "( a ) or all of them",
        "a and",
        "a b",
        "a and missing",
        "  ",
    ];
    for condition in conditions {
        let plain = compile(condition, &declared);
        for (at, c) in condition.char_indices() {
            if !c.is_ascii_whitespace() {
                continue;
            }
            for extra in [" ", "\t", "\n \r"] {
                let mut wider = condition.to_string();
                wider.insert_str(at, extra);
                let widened = compile(&wider, &declared);
                match (&plain, &widened) {
                    (Ok(a), Ok(b)) => assert_eq!(a, b),
                    (Err(CompileError::Syntax(_, a)), Err(CompileError::Syntax(_, b))) => {
                        assert_eq!(a, b)
                    }
                    (Err(CompileError::TrailingInput(_)), Err(CompileError::TrailingInput(_))) => {}
                    (a, b) => assert_eq!(a, b),
                }
            }
        }
        assert_eq!(compile(&format!(" \t{}\n", condition), &declared), plain);
        assert_eq!(compile(condition.trim(), &declared), plain);
    }
}

#[test]
fn conditions_of_the_same_tokens_compile_alike() {
    let declared = names(&["a", "b", "c", "sel1"]);
    let conditions = [
        "a and b",
        "a or b and not c",
        "not (a or b) and 1 of sel*",
        "( a ) or all of them",
        "a and (b or not not c) or 1 of them",
        "a and",
        "a b",
        "a and missing",
        "(a or",
    ];
    let runs = [" ", "  ", "\t", "\n", " \t ", "\r\n", "\x0C \x0C", "   \n   "];
    for condition in conditions {
        let plain = compile(condition, &declared);
        for (n, run) in runs.iter().enumerate() {
            let mut other = String::new();
            let mut k = n;
            for c in condition.chars() {
                if c == ' ' {
                    other.push_str(runs[k % runs.len()]);
                    k += 3;
                } else {
                    other.push(c);
                }
            }
            let other = format!("{}{}{}", run, other, runs[(n + 5) % runs.len()]);
            let laid_out_anew = compile(&other, &declared);
            match (&plain, &laid_out_anew) {
                (Ok(a), Ok(b)) => assert_eq!(a, b, "{:?}", other),
                (Err(CompileError::Syntax(_, a)), Err(CompileError::Syntax(_, b))) => {
                    assert_eq!(a, b, "{:?}", other)
                }
                (Err(CompileError::TrailingInput(_)), Err(CompileError::TrailingInput(_))) => {}
                (a, b) => assert_eq!(a, b, "{:?}", other),
            }
        }
    }
}
