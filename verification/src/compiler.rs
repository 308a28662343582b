//! The condition compiler: from the text of a condition and the declared
//! search blocks to a validated tree, or to the reason why there is none.

use crate::grammar::{parse_or, Parse, SyntaxReason};
use crate::node::{lemma_model_of_terms, models, well_formed, ConditionNode, Expr};
use crate::parser::{parse_or_at, Input};
use crate::resolver::{resolve, resolve_spec};
use crate::soundness::lemma_or_sound;
use crate::text::{skip_spaces, trim};
use vstd::prelude::*;
use vstd::string::*;

verus! {

/// Why a condition was not compiled.
#[derive(Clone, Debug, PartialEq, Eq)]
pub enum CompileError {
    /// The condition is empty or holds whitespace only.
    EmptyCondition,
    /// The condition holds a pipe: an aggregation, which is not supported.
    AggregationUnsupported,
    /// The grammar could not match at the position, counted in characters
    /// from the start of the trimmed condition.
    Syntax(usize, SyntaxReason),
    /// A condition was parsed, but this text was left behind it.
    TrailingInput(String),
    /// This name or pattern stands for no declared search block.
    UnresolvedReference(String),
}

/// The mathematical model of a `CompileError`.
pub enum CompileFault {
    EmptyCondition,
    AggregationUnsupported,
    Syntax(int, SyntaxReason),
    TrailingInput(Seq<char>),
    UnresolvedReference(Seq<char>),
}

impl View for CompileError {
    type V = CompileFault;

    open spec fn view(&self) -> CompileFault {
        match self {
            CompileError::EmptyCondition => CompileFault::EmptyCondition,
            CompileError::AggregationUnsupported => CompileFault::AggregationUnsupported,
            CompileError::Syntax(position, reason) => CompileFault::Syntax(
                *position as int,
                *reason,
            ),
            CompileError::TrailingInput(rest) => CompileFault::TrailingInput(rest@),
            CompileError::UnresolvedReference(name) => CompileFault::UnresolvedReference(name@),
        }
    }
}

/// The first reference of the tree, read from left to right, that stands for
/// no declared search block: a name that is not declared, or a pattern that
/// resolves to nothing.
pub open spec fn first_unresolved(e: Expr, declared: Seq<Seq<char>>) -> Option<Seq<char>>
    decreases e, 0nat,
{
    match e {
        Expr::Identifier(name) => if declared.contains(name) {
            None
        } else {
            Some(name)
        },
        Expr::Not(inner) => first_unresolved(*inner, declared),
        Expr::And(terms) => first_unresolved_in(terms, 0, declared),
        Expr::Or(terms) => first_unresolved_in(terms, 0, declared),
        Expr::OneOfPattern(pattern) => if resolve_spec(pattern, declared).len() > 0 {
            None
        } else {
            Some(pattern)
        },
        Expr::AllOfPattern(pattern) => if resolve_spec(pattern, declared).len() > 0 {
            None
        } else {
            Some(pattern)
        },
        Expr::OneOfThem => None,
        Expr::AllOfThem => None,
    }
}

/// `first_unresolved` over the terms from index `from` on.
pub open spec fn first_unresolved_in(terms: Seq<Expr>, from: int, declared: Seq<Seq<char>>)
    -> Option<Seq<char>>
    decreases terms, terms.len() - from,
{
    if 0 <= from < terms.len() {
        match first_unresolved(terms[from], declared) {
            Some(name) => Some(name),
            None => first_unresolved_in(terms, from + 1, declared),
        }
    } else {
        None
    }
}

/// What `parse_condition` gives for a condition.
///
/// The condition is trimmed first; positions count from the start of the
/// trimmed text.
pub open spec fn parse_condition_spec(condition: Seq<char>) -> Result<Expr, CompileFault> {
    let text = trim(condition);
    if text.len() == 0 {
        Err(CompileFault::EmptyCondition)
    } else if text.contains('|') {
        Err(CompileFault::AggregationUnsupported)
    } else {
        match parse_or(text, 0) {
            Parse::Failed { position, reason } => Err(CompileFault::Syntax(position, reason)),
            Parse::Done { node, next } => {
                let rest = skip_spaces(text, next);
                if rest < text.len() {
                    Err(CompileFault::TrailingInput(text.subrange(rest, text.len() as int)))
                } else {
                    Ok(node)
                }
            },
        }
    }
}

/// What `compile` gives for a condition and the declared names: the parsed
/// tree, unless one of its references is unresolved.
pub open spec fn compile_spec(condition: Seq<char>, declared: Seq<Seq<char>>) -> Result<
    Expr,
    CompileFault,
> {
    match parse_condition_spec(condition) {
        Err(e) => Err(e),
        Ok(node) => match first_unresolved(node, declared) {
            Some(name) => Err(CompileFault::UnresolvedReference(name)),
            None => Ok(node),
        },
    }
}

/// Every compiled tree is well formed, and each of its references stands for
/// at least one declared search block: a name is declared, and a pattern
/// resolves to something.
pub proof fn lemma_compiled(condition: Seq<char>, declared: Seq<Seq<char>>)
    ensures
        parse_condition_spec(condition) matches Ok(node) ==> well_formed(node),
        compile_spec(condition, declared) matches Ok(node) ==> well_formed(node)
            && first_unresolved(node, declared) is None,
{
    lemma_or_sound(trim(condition), 0);
}

/// The name `found` is the one that the model `expected` holds, if any.
pub open spec fn same_name(found: Option<String>, expected: Option<Seq<char>>) -> bool {
    match found {
        Some(name) => expected == Some(name@),
        None => expected is None,
    }
}

/// The result `r` of a compilation is the one that the model `expected` holds.
pub open spec fn same_outcome(
    r: Result<ConditionNode, CompileError>,
    expected: Result<Expr, CompileFault>,
) -> bool {
    match r {
        Ok(node) => expected == Ok::<Expr, CompileFault>(node@),
        Err(e) => expected == Err::<Expr, CompileFault>(e@),
    }
}

/// Whether `name` is one of the declared names.
pub fn is_declared(name: &String, declared: &Vec<String>) -> (r: bool)
    ensures
        r == declared.deep_view().contains(name@),
{
    let mut i: usize = 0;
    while i < declared.len()
        invariant
            i <= declared.len(),
            forall|j: int| 0 <= j < i ==> declared.deep_view()[j] != name@,
        decreases declared.len() - i,
    {
        if declared[i] == *name {
            assert(declared.deep_view()[i as int] == name@);
            return true;
        }
        i = i + 1;
    }
    false
}

/// The first reference of the tree, read from left to right, that stands for
/// no declared search block; `None` where every reference is resolved.
pub fn first_unresolved_reference(node: &ConditionNode, declared: &Vec<String>) -> (r: Option<
    String,
>)
    ensures
        same_name(r, first_unresolved(node@, declared.deep_view())),
    decreases node,
{
    proof {
        lemma_model_of_terms(*node);
    }
    match node {
        ConditionNode::Identifier(name) => {
            if is_declared(name, declared) {
                None
            } else {
                Some(name.clone())
            }
        },
        ConditionNode::Not(inner) => first_unresolved_reference(inner, declared),
        ConditionNode::And(terms) => first_unresolved_among(terms, declared),
        ConditionNode::Or(terms) => first_unresolved_among(terms, declared),
        ConditionNode::OneOfPattern(pattern) => {
            if resolve(pattern.as_str(), declared).len() > 0 {
                None
            } else {
                Some(pattern.clone())
            }
        },
        ConditionNode::AllOfPattern(pattern) => {
            if resolve(pattern.as_str(), declared).len() > 0 {
                None
            } else {
                Some(pattern.clone())
            }
        },
        ConditionNode::OneOfThem => None,
        ConditionNode::AllOfThem => None,
    }
}

/// `first_unresolved_reference` over the terms of a conjunction or
/// disjunction.
fn first_unresolved_among(terms: &Vec<ConditionNode>, declared: &Vec<String>) -> (r: Option<
    String,
>)
    ensures
        same_name(r, first_unresolved_in(models(terms@), 0, declared.deep_view())),
    decreases terms,
{
    let mut i: usize = 0;
    while i < terms.len()
        invariant
            i <= terms.len(),
            first_unresolved_in(models(terms@), 0, declared.deep_view()) == first_unresolved_in(
                models(terms@),
                i as int,
                declared.deep_view(),
            ),
        decreases terms.len() - i,
    {
        match first_unresolved_reference(&terms[i], declared) {
            Some(name) => {
                return Some(name);
            },
            None => {},
        }
        i = i + 1;
    }
    None
}

/// Parses the whole text of a condition into a tree, without looking at what
/// its references stand for.
///
/// The result is exactly `parse_condition_spec`: an empty condition, a pipe,
/// a text that the grammar does not match or text left behind the parsed
/// condition each give their error, in this order of precedence, and every
/// other condition gives its tree.
pub fn parse_condition(condition: &str) -> (r: Result<ConditionNode, CompileError>)
    ensures
        same_outcome(r, parse_condition_spec(condition@)),
        r matches Ok(node) ==> well_formed(node@),
{
    proof {
        lemma_compiled(condition@, Seq::empty());
    }
    let input = Input::trimmed(condition);
    if input.len() == 0 {
        return Err(CompileError::EmptyCondition);
    }
    if input.contains('|') {
        return Err(CompileError::AggregationUnsupported);
    }
    match parse_or_at(&input, 0) {
        Err(e) => Err(CompileError::Syntax(e.position, e.reason)),
        Ok((node, next)) => {
            let rest = input.skip_spaces(next);
            if rest < input.len() {
                Err(CompileError::TrailingInput(input.slice(rest, input.len()).to_owned()))
            } else {
                Ok(node)
            }
        },
    }
}

/// Compiles the text of a condition into a tree whose every reference stands
/// for at least one of the declared search blocks.
///
/// The result is exactly `compile_spec`: what `parse_condition` gives,
/// unless the parsed tree holds a name that is not declared or a pattern
/// that resolves to nothing; then the first such reference is the error.
pub fn compile(condition: &str, declared: &Vec<String>) -> (r: Result<
    ConditionNode,
    CompileError,
>)
    ensures
        same_outcome(r, compile_spec(condition@, declared.deep_view())),
        r matches Ok(node) ==> well_formed(node@) && first_unresolved(
            node@,
            declared.deep_view(),
        ) is None,
{
    proof {
        lemma_compiled(condition@, declared.deep_view());
    }
    match parse_condition(condition) {
        Err(e) => Err(e),
        Ok(node) => {
            match first_unresolved_reference(&node, declared) {
                Some(name) => Err(CompileError::UnresolvedReference(name)),
                None => Ok(node),
            }
        },
    }
}

} // verus!
