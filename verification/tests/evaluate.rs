use sigma_rule_parser::compiler::compile;
use sigma_rule_parser::evaluator::{
    evaluate, facts_cover, first_missing_fact, try_evaluate, EvaluationError, Facts,
};
use sigma_rule_parser::node::ConditionNode;
use sigma_rule_parser::resolver::{matches_pattern, resolve};

fn names(list: &[&str]) -> Vec<String> {
    list.iter().map(|s| s.to_string()).collect()
}

fn facts(list: &[(&str, bool)]) -> Facts {
    let mut facts = Facts::new();
    for (name, matched) in list {
        facts.set(name, *matched);
    }
    facts
}

#[test]
fn wildcard_resolution() {
    let declared = names(&["selection1", "selection2", "filter"]);
    assert_eq!(resolve("selection*", &declared), names(&["selection1", "selection2"]));
    let tree = ConditionNode::OneOfPattern("selection*".to_string());
    for s1 in [false, true] {
        for s2 in [false, true] {
            for f in [false, true] {
                let facts = facts(&[("selection1", s1), ("selection2", s2), ("filter", f)]);
                assert_eq!(evaluate(&tree, &declared, &facts), s1 || s2);
            }
        }
    }
}

#[test]
fn resolve_without_wildcard() {
    let declared = names(&["selection1", "selection2", "filter"]);
    assert_eq!(resolve("filter", &declared), names(&["filter"]));
    assert_eq!(resolve("selection", &declared), Vec::<String>::new());
    assert_eq!(resolve("Filter", &declared), Vec::<String>::new());
    assert_eq!(resolve("", &declared), Vec::<String>::new());
}

#[test]
fn resolve_with_wildcard() {
    let declared = names(&["selection1", "filter", "selection2", "sel"]);
    assert_eq!(resolve("sel*", &declared), names(&["selection1", "selection2", "sel"]));
    assert_eq!(resolve("*", &declared), declared);
    assert_eq!(resolve("selection1*", &declared), names(&["selection1"]));
    assert_eq!(resolve("keywords*", &declared), Vec::<String>::new());
    assert_eq!(resolve("sel*", &Vec::new()), Vec::<String>::new());
}

#[test]
fn a_wildcard_inside_a_pattern_matches_nothing() {
    let declared = names(&["selection1", "sel*1", "s*", "**"]);
    assert_eq!(resolve("sel*1", &declared), Vec::<String>::new());
    assert_eq!(resolve("*1", &declared), Vec::<String>::new());
    assert_eq!(resolve("s**", &declared), Vec::<String>::new());
    assert_eq!(resolve("s*", &declared), names(&["selection1", "sel*1", "s*"]));
}

#[test]
fn matches_pattern_on_single_names() {
    assert!(matches_pattern("filter", "filter"));
    assert!(!matches_pattern("filter", "filter1"));
    assert!(matches_pattern("filter*", "filter"));
    assert!(matches_pattern("filter*", "filter_main"));
    assert!(!matches_pattern("filter*", "filte"));
    assert!(!matches_pattern("fil*ter", "filter"));
    assert!(matches_pattern("*", ""));
}

#[test]
fn quantifier_over_all() {
    let declared = names(&["a", "b"]);
    assert!(evaluate(&ConditionNode::AllOfThem, &declared, &facts(&[("a", true), ("b", true)])));
    assert!(!evaluate(&ConditionNode::AllOfThem, &declared, &facts(&[("a", true), ("b", false)])));
    assert!(!evaluate(&ConditionNode::AllOfThem, &declared, &facts(&[("a", false), ("b", false)])));
    assert!(evaluate(&ConditionNode::OneOfThem, &declared, &facts(&[("a", false), ("b", true)])));
    assert!(!evaluate(&ConditionNode::OneOfThem, &declared, &facts(&[("a", false), ("b", false)])));
}

#[test]
fn quantifiers_over_nothing_are_false() {
    let declared: Vec<String> = Vec::new();
    let facts = Facts::new();
    assert!(!evaluate(&ConditionNode::AllOfThem, &declared, &facts));
    assert!(!evaluate(&ConditionNode::OneOfThem, &declared, &facts));
}

#[test]
fn all_of_pattern() {
    let declared = names(&["selection1", "selection2", "filter"]);
    let tree = ConditionNode::AllOfPattern("selection*".to_string());
    for s1 in [false, true] {
        for s2 in [false, true] {
            for f in [false, true] {
                let facts = facts(&[("selection1", s1), ("selection2", s2), ("filter", f)]);
                assert_eq!(evaluate(&tree, &declared, &facts), s1 && s2);
            }
        }
    }
}

#[test]
fn end_to_end() {
    let declared = names(&["selection", "filter"]);
    let tree = compile("selection and not filter", &declared).unwrap();
    assert!(evaluate(&tree, &declared, &facts(&[("selection", true), ("filter", false)])));
    assert!(!evaluate(&tree, &declared, &facts(&[("selection", true), ("filter", true)])));
    assert!(!evaluate(&tree, &declared, &facts(&[("selection", false), ("filter", false)])));
    assert!(!evaluate(&tree, &declared, &facts(&[("selection", false), ("filter", true)])));
}

#[test]
fn evaluation_follows_the_tree() {
    let declared = names(&["a", "b", "c"]);
    let tree = compile("(a or b) and not (c and a)", &declared).unwrap();
    for a in [false, true] {
        for b in [false, true] {
            for c in [false, true] {
                let facts = facts(&[("a", a), ("b", b), ("c", c)]);
                assert_eq!(evaluate(&tree, &declared, &facts), (a || b) && !(c && a));
            }
        }
    }
    let tree = compile("a or b and c", &declared).unwrap();
    for a in [false, true] {
        for b in [false, true] {
            for c in [false, true] {
                let facts = facts(&[("a", a), ("b", b), ("c", c)]);
                assert_eq!(evaluate(&tree, &declared, &facts), a || (b && c));
            }
        }
    }
}

#[test]
fn one_tree_serves_many_events() {
    let declared = names(&["selection1", "selection2", "filter"]);
    let tree = compile("1 of selection* and not filter", &declared).unwrap();
    let first = facts(&[("selection1", false), ("selection2", true), ("filter", false)]);
    let second = facts(&[("selection1", true), ("selection2", true), ("filter", true)]);
    assert!(evaluate(&tree, &declared, &first));
    assert!(!evaluate(&tree, &declared, &second));
    assert!(evaluate(&tree, &declared, &first));
}

#[test]
fn facts_keep_the_last_result() {
    let mut facts = Facts::new();
    assert_eq!(facts.get("a"), None);
    facts.set("a", true);
    facts.set("b", false);
    assert_eq!(facts.get("a"), Some(true));
    assert_eq!(facts.get("b"), Some(false));
    facts.set("a", false);
    assert_eq!(facts.get("a"), Some(false));
    assert_eq!(facts.get("c"), None);
}

#[test]
fn facts_cover_the_declared_names() {
    let declared = names(&["a", "b"]);
    assert!(facts_cover(&facts(&[("a", true), ("b", false)]), &declared));
    assert!(facts_cover(&facts(&[("b", true), ("c", true), ("a", false)]), &declared));
    assert!(!facts_cover(&facts(&[("a", true)]), &declared));
    assert!(facts_cover(&Facts::new(), &Vec::new()));
}

#[test]
fn try_evaluate_gives_the_verdict_or_the_reason() {
    let declared = names(&["selection", "filter"]);
    let tree = compile("selection and not filter", &declared).unwrap();
    assert_eq!(
        try_evaluate(&tree, &declared, &facts(&[("selection", true), ("filter", false)])),
        Ok(true)
    );
    assert_eq!(
        try_evaluate(&tree, &declared, &facts(&[("selection", true), ("filter", true)])),
        Ok(false)
    );
    assert_eq!(
        try_evaluate(&tree, &declared, &facts(&[("selection", true)])),
        Err(EvaluationError::MissingFact("filter".to_string()))
    );
    assert_eq!(
        try_evaluate(&tree, &declared, &Facts::new()),
        Err(EvaluationError::MissingFact("selection".to_string()))
    );
    assert_eq!(
        try_evaluate(&tree, &names(&["selection"]), &facts(&[("selection", true)])),
        Err(EvaluationError::UnresolvedReference("filter".to_string()))
    );
    let unknown = ConditionNode::OneOfPattern("keywords*".to_string());
    assert_eq!(
        try_evaluate(&unknown, &declared, &facts(&[("selection", true), ("filter", true)])),
        Err(EvaluationError::UnresolvedReference("keywords*".to_string()))
    );
}

#[test]
fn a_fact_is_owed_for_every_declared_name() {
    let declared = names(&["a", "b"]);
    let tree = compile("a", &declared).unwrap();
    assert_eq!(
        try_evaluate(&tree, &declared, &facts(&[("a", true)])),
        Err(EvaluationError::MissingFact("b".to_string()))
    );
    assert_eq!(first_missing_fact(&facts(&[("a", true)]), &declared), Some("b".to_string()));
    assert_eq!(first_missing_fact(&facts(&[("b", true), ("a", false)]), &declared), None);
}
