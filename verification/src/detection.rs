//! The flat record of a detection: a chain of conditions joined by one
//! operator, each condition a summary of one term of the syntax tree.

use crate::compiler::{
    compile, compile_spec, parse_condition, parse_condition_spec, same_outcome, CompileError,
    CompileFault,
};
use crate::node::{lemma_model_of_terms, models, ConditionNode, Expr};
use crate::render::{render_as_term, render_term};
use crate::sigma_rule::{
    condition_key, condition_of, condition_text, find_condition, search_identifiers_in,
    search_identifiers_of, DetectionTypes, SigmaRule,
};
use crate::text::Keyword;
use vstd::prelude::*;
use vstd::string::*;

verus! {

/// What a condition was parsed as.
#[allow(non_camel_case_types)]
#[derive(Clone, Copy, Debug, PartialEq, Eq)]
pub enum PARSER_TYPES {
    PARENS,
    ONE_OF_THEM,
    ALL_OF_THEM,
    ONE_OF,
    ALL_OF,
    NOT,
    AND,
    OR,
    PIPE,
    SEARCH_IDENTIFIER,
}

/// The operator that joins the conditions of a detection.
#[allow(non_camel_case_types)]
#[derive(Clone, Copy, Debug, PartialEq, Eq)]
pub enum OPERATOR {
    AND,
    OR,
}

impl OPERATOR {
    /// The operator's keyword, in lower case.
    pub open spec fn text(self) -> Seq<char> {
        match self {
            OPERATOR::AND => Keyword::And.text(),
            OPERATOR::OR => Keyword::Or.text(),
        }
    }

    /// The operator's keyword, in lower case: `and` or `or`.
    pub fn as_str(&self) -> (r: &'static str)
        ensures
            r@ == self.text(),
    {
        match self {
            OPERATOR::AND => Keyword::And.as_str(),
            OPERATOR::OR => Keyword::Or.as_str(),
        }
    }
}

/// The conditions of a detection and the operator that joins them.
#[derive(Debug, PartialEq)]
pub struct Detection {
    pub operator: Option<OPERATOR>,
    pub conditions: Option<Vec<Condition>>,
}

/// One condition of a detection: what it was parsed as, its text in pieces,
/// and what it refers to.
#[derive(Debug, PartialEq)]
pub struct Condition {
    pub parser_type: Option<PARSER_TYPES>,
    pub parser_result: Option<Vec<String>>,
    pub is_negated: Option<bool>,
    pub operator: Option<OPERATOR>,
    pub search_identifier: Option<String>,
    pub nested_detections: Option<Detection>,
}

/// The mathematical model of a `Detection`.
pub struct DetectionModel {
    pub operator: Option<OPERATOR>,
    pub conditions: Option<Seq<ConditionModel>>,
}

/// The mathematical model of a `Condition`.
pub struct ConditionModel {
    pub parser_type: Option<PARSER_TYPES>,
    pub parser_result: Option<Seq<Seq<char>>>,
    pub is_negated: Option<bool>,
    pub operator: Option<OPERATOR>,
    pub search_identifier: Option<Seq<char>>,
    pub nested_detections: Option<DetectionModel>,
}

/// The models of a list of conditions, in order.
pub open spec fn condition_models(conditions: Seq<Condition>) -> Seq<ConditionModel> {
    Seq::new(conditions.len(), |i: int| conditions[i].model())
}

impl Condition {
    /// The condition as a mathematical value.
    pub open spec fn model(self) -> ConditionModel
        decreases self,
    {
        ConditionModel {
            parser_type: self.parser_type,
            parser_result: match self.parser_result {
                Some(pieces) => Some(pieces.deep_view()),
                None => None,
            },
            is_negated: self.is_negated,
            operator: self.operator,
            search_identifier: match self.search_identifier {
                Some(name) => Some(name@),
                None => None,
            },
            nested_detections: match self.nested_detections {
                Some(detection) => Some(detection.model()),
                None => None,
            },
        }
    }

    /// A condition of which nothing is known yet.
    pub fn new() -> (r: Condition)
        ensures
            r@ == (ConditionModel {
                parser_type: None,
                parser_result: None,
                is_negated: None,
                operator: None,
                search_identifier: None,
                nested_detections: None,
            }),
    {
        Condition {
            parser_type: None,
            parser_result: None,
            search_identifier: None,
            is_negated: None,
            nested_detections: None,
            operator: None,
        }
    }

    /// The record of one term of a syntax tree. `operator` is the operator
    /// that joins the term to the one before it, if there is one.
    pub fn from_term(term: &ConditionNode, operator: Option<OPERATOR>) -> (r: Condition)
        ensures
            r@ == record(term@, operator),
        decreases term, 1nat,
    {
        let parser_type = match operator {
            Some(OPERATOR::AND) => PARSER_TYPES::AND,
            Some(OPERATOR::OR) => PARSER_TYPES::OR,
            None => kind(term),
        };
        let mut pieces: Vec<String> = Vec::new();
        match operator {
            Some(op) => {
                pieces.push(op.as_str().to_owned());
            },
            None => {},
        }
        pieces.push(render_as_term(term));
        assert(pieces.deep_view() =~= record(term@, operator).parser_result->0);
        Condition {
            parser_type: Some(parser_type),
            parser_result: Some(pieces),
            is_negated: negation(term),
            operator,
            search_identifier: referent(term),
            nested_detections: nested_of(term),
        }
    }
}

impl Clone for Condition {
    /// A copy of the condition: it has the same model.
    fn clone(&self) -> (r: Self)
        ensures
            r@ == self@,
        decreases self, 1nat,
    {
        Condition {
            parser_type: self.parser_type,
            parser_result: match &self.parser_result {
                Some(pieces) => Some(clone_pieces(pieces)),
                None => None,
            },
            is_negated: self.is_negated,
            operator: self.operator,
            search_identifier: match &self.search_identifier {
                Some(name) => Some(name.clone()),
                None => None,
            },
            nested_detections: match &self.nested_detections {
                Some(detection) => Some(detection.clone()),
                None => None,
            },
        }
    }
}

/// Copies of the pieces, in order.
fn clone_pieces(pieces: &Vec<String>) -> (r: Vec<String>)
    ensures
        r.deep_view() == pieces.deep_view(),
{
    let mut out: Vec<String> = Vec::new();
    let mut i: usize = 0;
    while i < pieces.len()
        invariant
            i <= pieces.len(),
            out.len() == i,
            forall|j: int| 0 <= j < i ==> (#[trigger] out[j])@ == pieces[j]@,
        decreases pieces.len() - i,
    {
        out.push(pieces[i].clone());
        i = i + 1;
    }
    assert(out.deep_view() =~= pieces.deep_view());
    out
}

/// Copies of the conditions, in order.
fn clone_conditions(conditions: &Vec<Condition>) -> (r: Vec<Condition>)
    ensures
        r.len() == conditions.len(),
        forall|j: int| 0 <= j < r.len() ==> (#[trigger] r[j])@ == conditions[j]@,
    decreases conditions, 0nat,
{
    let mut out: Vec<Condition> = Vec::new();
    let mut i: usize = 0;
    while i < conditions.len()
        invariant
            i <= conditions.len(),
            out.len() == i,
            forall|j: int| 0 <= j < i ==> (#[trigger] out[j])@ == conditions[j]@,
        decreases conditions.len() - i,
    {
        out.push(conditions[i].clone());
        i = i + 1;
    }
    out
}

impl Clone for Detection {
    /// A copy of the detection: it has the same model.
    fn clone(&self) -> (r: Self)
        ensures
            r@ == self@,
        decreases self, 1nat,
    {
        let r = Detection {
            operator: self.operator,
            conditions: match &self.conditions {
                Some(conditions) => Some(clone_conditions(conditions)),
                None => None,
            },
        };
        proof {
            if self.conditions is Some {
                assert(r@.conditions->0 =~= self@.conditions->0);
            }
        }
        r
    }
}

impl View for Condition {
    type V = ConditionModel;

    open spec fn view(&self) -> ConditionModel {
        self.model()
    }
}

impl Detection {
    /// The detection as a mathematical value.
    pub open spec fn model(self) -> DetectionModel
        decreases self,
    {
        DetectionModel {
            operator: self.operator,
            conditions: match self.conditions {
                Some(conditions) => Some(
                    Seq::new(
                        conditions.len() as nat,
                        |i: int|
                            if 0 <= i < conditions.len() {
                                conditions[i].model()
                            } else {
                                arbitrary()
                            },
                    ),
                ),
                None => None,
            },
        }
    }

    /// A detection without operator and conditions.
    pub fn new() -> (r: Detection)
        ensures
            r@ == (DetectionModel { operator: None, conditions: None }),
    {
        Detection { operator: None, conditions: None }
    }

    /// The detection that a syntax tree stands for: the terms of a
    /// conjunction or disjunction with their operator, or the one condition
    /// of any other tree.
    pub fn from_node(node: &ConditionNode) -> (r: Detection)
        ensures
            r@ == detection_of(node@),
    {
        proof {
            lemma_model_of_terms(*node);
        }
        match node {
            ConditionNode::And(terms) => chain_of(OPERATOR::AND, terms),
            ConditionNode::Or(terms) => chain_of(OPERATOR::OR, terms),
            _ => {
                let mut conditions: Vec<Condition> = Vec::new();
                conditions.push(Condition::from_term(node, None));
                let r = Detection { operator: None, conditions: Some(conditions) };
                assert(r@.conditions->0 =~= seq![record(node@, None)]);
                r
            },
        }
    }
}

impl View for Detection {
    type V = DetectionModel;

    open spec fn view(&self) -> DetectionModel {
        self.model()
    }
}

/// What a term is parsed as when it stands alone.
pub open spec fn kind_of(term: Expr) -> PARSER_TYPES {
    match term {
        Expr::Identifier(_) => PARSER_TYPES::SEARCH_IDENTIFIER,
        Expr::Not(_) => PARSER_TYPES::NOT,
        Expr::And(_) => PARSER_TYPES::PARENS,
        Expr::Or(_) => PARSER_TYPES::PARENS,
        Expr::OneOfPattern(_) => PARSER_TYPES::ONE_OF,
        Expr::AllOfPattern(_) => PARSER_TYPES::ALL_OF,
        Expr::OneOfThem => PARSER_TYPES::ONE_OF_THEM,
        Expr::AllOfThem => PARSER_TYPES::ALL_OF_THEM,
    }
}

/// Whether a term is negated: nothing for a term without `not`, else whether
/// the number of its leading `not` is odd.
pub open spec fn negated(term: Expr) -> Option<bool>
    decreases term,
{
    match term {
        Expr::Not(inner) => match negated(*inner) {
            Some(inner_negated) => Some(!inner_negated),
            None => Some(true),
        },
        _ => None,
    }
}

/// The name or pattern that a term refers to, behind any `not`.
pub open spec fn referent_of(term: Expr) -> Option<Seq<char>>
    decreases term,
{
    match term {
        Expr::Not(inner) => referent_of(*inner),
        Expr::Identifier(name) => Some(name),
        Expr::OneOfPattern(pattern) => Some(pattern),
        Expr::AllOfPattern(pattern) => Some(pattern),
        _ => None,
    }
}

/// The detection nested in a term: that of the conjunction or disjunction
/// that it holds behind any `not`.
pub open spec fn nested(term: Expr) -> Option<DetectionModel>
    decreases term, 0nat,
{
    match term {
        Expr::Not(inner) => nested(*inner),
        Expr::And(terms) => Some(chain(OPERATOR::AND, terms)),
        Expr::Or(terms) => Some(chain(OPERATOR::OR, terms)),
        _ => None,
    }
}

/// The record of one term. Joined to the term before it by `operator`, the
/// term is recorded as that operator's step and its text starts with the
/// operator's keyword; the first term of a chain is recorded as what it is.
pub open spec fn record(term: Expr, operator: Option<OPERATOR>) -> ConditionModel
    decreases term, 1nat,
{
    ConditionModel {
        parser_type: Some(
            match operator {
                Some(OPERATOR::AND) => PARSER_TYPES::AND,
                Some(OPERATOR::OR) => PARSER_TYPES::OR,
                None => kind_of(term),
            },
        ),
        parser_result: Some(
            match operator {
                Some(op) => seq![op.text(), render_term(term)],
                None => seq![render_term(term)],
            },
        ),
        is_negated: negated(term),
        operator,
        search_identifier: referent_of(term),
        nested_detections: nested(term),
    }
}

/// The detection of the terms joined by `operator`: the record of the first
/// term, then the record of each further term as a step of the operator.
pub open spec fn chain(operator: OPERATOR, terms: Seq<Expr>) -> DetectionModel
    decreases terms, 0nat,
{
    DetectionModel {
        operator: Some(operator),
        conditions: Some(
            Seq::new(
                terms.len(),
                |i: int|
                    if 0 <= i < terms.len() {
                        record(
                            terms[i],
                            if i == 0 {
                                None
                            } else {
                                Some(operator)
                            },
                        )
                    } else {
                        arbitrary()
                    },
            ),
        ),
    }
}

/// The detection that a syntax tree stands for.
pub open spec fn detection_of(node: Expr) -> DetectionModel {
    match node {
        Expr::And(terms) => chain(OPERATOR::AND, terms),
        Expr::Or(terms) => chain(OPERATOR::OR, terms),
        _ => DetectionModel { operator: None, conditions: Some(seq![record(node, None)]) },
    }
}

/// What a term is parsed as when it stands alone.
pub fn kind(term: &ConditionNode) -> (r: PARSER_TYPES)
    ensures
        r == kind_of(term@),
{
    match term {
        ConditionNode::Identifier(_) => PARSER_TYPES::SEARCH_IDENTIFIER,
        ConditionNode::Not(_) => PARSER_TYPES::NOT,
        ConditionNode::And(_) => PARSER_TYPES::PARENS,
        ConditionNode::Or(_) => PARSER_TYPES::PARENS,
        ConditionNode::OneOfPattern(_) => PARSER_TYPES::ONE_OF,
        ConditionNode::AllOfPattern(_) => PARSER_TYPES::ALL_OF,
        ConditionNode::OneOfThem => PARSER_TYPES::ONE_OF_THEM,
        ConditionNode::AllOfThem => PARSER_TYPES::ALL_OF_THEM,
    }
}

/// Whether a term is negated.
pub fn negation(term: &ConditionNode) -> (r: Option<bool>)
    ensures
        r == negated(term@),
    decreases term,
{
    match term {
        ConditionNode::Not(inner) => match negation(inner) {
            Some(inner_negated) => Some(!inner_negated),
            None => Some(true),
        },
        _ => None,
    }
}

/// The name or pattern that a term refers to, behind any `not`.
pub fn referent(term: &ConditionNode) -> (r: Option<String>)
    ensures
        match r {
            Some(name) => referent_of(term@) == Some(name@),
            None => referent_of(term@) is None,
        },
    decreases term,
{
    match term {
        ConditionNode::Not(inner) => referent(inner),
        ConditionNode::Identifier(name) => Some(name.clone()),
        ConditionNode::OneOfPattern(pattern) => Some(pattern.clone()),
        ConditionNode::AllOfPattern(pattern) => Some(pattern.clone()),
        _ => None,
    }
}

/// The detection nested in a term.
fn nested_of(term: &ConditionNode) -> (r: Option<Detection>)
    ensures
        match r {
            Some(detection) => nested(term@) == Some(detection@),
            None => nested(term@) is None,
        },
    decreases term, 0nat,
{
    proof {
        lemma_model_of_terms(*term);
    }
    match term {
        ConditionNode::Not(inner) => nested_of(inner),
        ConditionNode::And(terms) => Some(chain_of(OPERATOR::AND, terms)),
        ConditionNode::Or(terms) => Some(chain_of(OPERATOR::OR, terms)),
        _ => None,
    }
}

/// The detection of the terms joined by `operator`.
fn chain_of(operator: OPERATOR, terms: &Vec<ConditionNode>) -> (r: Detection)
    ensures
        r@ == chain(operator, models(terms@)),
    decreases terms, 0nat,
{
    let mut conditions: Vec<Condition> = Vec::new();
    let ghost wanted = chain(operator, models(terms@)).conditions->0;
    let mut i: usize = 0;
    while i < terms.len()
        invariant
            i <= terms.len(),
            conditions.len() == i,
            wanted == chain(operator, models(terms@)).conditions->0,
            forall|j: int| 0 <= j < i ==> (#[trigger] conditions[j])@ == wanted[j],
        decreases terms.len() - i,
    {
        assert(models(terms@)[i as int] == terms[i as int]@);
        let condition = if i == 0 {
            Condition::from_term(&terms[i], None)
        } else {
            Condition::from_term(&terms[i], Some(operator))
        };
        conditions.push(condition);
        i = i + 1;
    }
    let r = Detection { operator: Some(operator), conditions: Some(conditions) };
    assert(r@.conditions->0 =~= wanted);
    r
}

/// Parses the whole text of a condition into the detection that it stands
/// for. No reference is looked up.
pub fn parse_detection(rule_condition: &str) -> (r: Result<Detection, CompileError>)
    ensures
        match r {
            Ok(detection) => parse_condition_spec(rule_condition@) matches Ok(node)
                && detection@ == detection_of(node),
            Err(e) => parse_condition_spec(rule_condition@) == Err::<Expr, CompileFault>(e@),
        },
{
    match parse_condition(rule_condition) {
        Ok(node) => Ok(Detection::from_node(&node)),
        Err(e) => Err(e),
    }
}

/// The text that a condition value reads as: a string reads as itself, a
/// boolean or a number as the word `condition`, which names no search
/// block, and a sequence or mapping as nothing.
///
/// There must be a value.
pub fn read_condition<'a>(condition: Option<&'a DetectionTypes>) -> (r: &'a str)
    requires
        condition is Some,
    ensures
        r@ == condition_text(*condition->0),
{
    proof {
        reveal_strlit("condition");
        reveal_strlit("");
    }
    assert("condition"@ =~= condition_key());
    assert(""@ =~= Seq::<char>::empty());
    match condition.unwrap() {
        DetectionTypes::Boolean(_) => "condition",
        DetectionTypes::Number(_) => "condition",
        DetectionTypes::String(text) => text.as_str(),
        DetectionTypes::Sequence(_) => "",
        DetectionTypes::Mapping(_) => "",
    }
}

/// The text of a rule's condition: that of the first entry under the key
/// `condition`; none where there is no such entry or its text is empty.
pub fn process_condition(detection: &Vec<(String, DetectionTypes)>) -> (r: Option<String>)
    ensures
        match r {
            Some(text) => condition_of(detection@) == Some(text@),
            None => condition_of(detection@) is None,
        },
{
    match find_condition(detection) {
        Some(value) => {
            let text = read_condition(Some(value));
            proof {
                reveal_strlit("");
            }
            if text.unicode_len() > 0 {
                Some(text.to_owned())
            } else {
                None
            }
        },
        None => None,
    }
}

/// What processing a rule comes to: nothing where the rule has no
/// condition text, else what compiling that text against the rule's search
/// blocks gives.
pub open spec fn outcome_of(rule: SigmaRule) -> Option<Result<Expr, CompileFault>> {
    match condition_of(rule.detection@) {
        Some(text) => Some(compile_spec(text, search_identifiers_of(rule.detection@))),
        None => None,
    }
}

/// Compiles the condition of every rule, each for itself: a rule without
/// condition text is skipped and a rule whose condition does not compile
/// has its error, and neither keeps the rules behind it from being compiled.
///
/// The results stand in the order of the rules; a skipped rule has `None`.
/// Every rule must be well formed, so that it has one condition at most and
/// declares no search block twice.
pub fn process_detection(sigma_rules: &Vec<SigmaRule>) -> (r: Vec<
    Option<Result<ConditionNode, CompileError>>,
>)
    requires
        forall|i: int| 0 <= i < sigma_rules.len() ==> (#[trigger] sigma_rules[i]).well_formed(),
    ensures
        r.len() == sigma_rules.len(),
        forall|i: int|
            0 <= i < r.len() ==> match #[trigger] r[i] {
                Some(outcome) => outcome_of(sigma_rules[i]) matches Some(expected) && same_outcome(
                    outcome,
                    expected,
                ),
                None => outcome_of(sigma_rules[i]) is None,
            },
{
    let mut out: Vec<Option<Result<ConditionNode, CompileError>>> = Vec::new();
    let mut i: usize = 0;
    while i < sigma_rules.len()
        invariant
            i <= sigma_rules.len(),
            out.len() == i,
            forall|j: int|
                0 <= j < i ==> match #[trigger] out[j] {
                    Some(outcome) => outcome_of(sigma_rules[j]) matches Some(expected)
                        && same_outcome(outcome, expected),
                    None => outcome_of(sigma_rules[j]) is None,
                },
        decreases sigma_rules.len() - i,
    {
        let rule = &sigma_rules[i];
        let outcome = match process_condition(&rule.detection) {
            Some(condition) => {
                let search_identifiers = search_identifiers_in(&rule.detection);
                Some(compile(condition.as_str(), &search_identifiers))
            },
            None => None,
        };
        out.push(outcome);
        i = i + 1;
    }
    out
}

/// Readies the parser for a condition text. There is nothing to ready: the
/// parsers keep no state between conditions.
pub fn initialize_parser(parsed_result: &str) {
    if parsed_result.len() > 1 {
    }
}

} // verus!
