//! The parsers of one step of a disjunction: the keyword `or` and the term
//! that follows it.

use crate::detection::{record, Condition, ConditionModel, OPERATOR};
use crate::grammar::{parse_not, Parse, SyntaxReason};
use crate::parser::{parse_not_at, Input, SyntaxError};
use crate::text::{keyword_at, trim, Keyword};
use vstd::prelude::*;

verus! {

/// What parsing one term of `text` from `from` on gives, as a step joined by
/// `operator`: what is left of the text behind the term and the term's
/// record, or the place and reason of the failure.
pub open spec fn step_spec(text: Seq<char>, from: int, operator: Option<OPERATOR>) -> Result<
    (Seq<char>, ConditionModel),
    (int, SyntaxReason),
> {
    match parse_not(text, from) {
        Parse::Done { node, next } => Ok(
            (text.subrange(next, text.len() as int), record(node, operator)),
        ),
        Parse::Failed { position, reason } => Err((position, reason)),
    }
}

/// The result `r` of a step is the one that the model `expected` holds.
pub open spec fn same_step(
    r: Result<(&str, Condition), SyntaxError>,
    expected: Result<(Seq<char>, ConditionModel), (int, SyntaxReason)>,
) -> bool {
    match r {
        Ok((rest, condition)) => expected == Ok::<
            (Seq<char>, ConditionModel),
            (int, SyntaxReason),
        >((rest@, condition@)),
        Err(e) => expected == Err::<(Seq<char>, ConditionModel), (int, SyntaxReason)>(
            (e.position as int, e.reason),
        ),
    }
}

/// What `or_parser` gives for an input: the step behind the keyword `or`,
/// which must start the trimmed input.
pub open spec fn or_parser_spec(input: Seq<char>) -> Result<
    (Seq<char>, ConditionModel),
    (int, SyntaxReason),
> {
    let text = trim(input);
    if keyword_at(text, 0, Keyword::Or) {
        step_spec(text, 2, Some(OPERATOR::OR))
    } else {
        Err((0, SyntaxReason::ExpectedOperator))
    }
}

/// Parses one term of the input from `from` on as a step joined by
/// `operator`.
fn step<'a>(text: &Input<'a>, from: usize, operator: Option<OPERATOR>) -> (r: Result<
    (&'a str, Condition),
    SyntaxError,
>)
    requires
        from <= text@.len(),
    ensures
        same_step(r, step_spec(text@, from as int, operator)),
{
    match parse_not_at(text, from) {
        Ok((node, next)) => Ok((text.slice(next, text.len()), Condition::from_term(&node, operator))),
        Err(e) => Err(e),
    }
}

/// Takes the keyword `or` from the start of the trimmed input: gives what is
/// left behind it, then the keyword as it is written. The keyword is matched
/// whatever the case of its letters and must be followed by whitespace or by
/// the end of the input; else the parser fails at position 0.
pub fn or<'a>(input: &'a str) -> (r: Result<(&'a str, &'a str), SyntaxError>)
    ensures
        match r {
            Ok((rest, word)) => keyword_at(trim(input@), 0, Keyword::Or) && word@ == trim(
                input@,
            ).subrange(0, 2) && rest@ == trim(input@).subrange(2, trim(input@).len() as int),
            Err(e) => !keyword_at(trim(input@), 0, Keyword::Or) && e == (SyntaxError {
                position: 0,
                reason: SyntaxReason::ExpectedOperator,
            }),
        },
{
    let text = Input::trimmed(input);
    if text.keyword_at(0, Keyword::Or) {
        Ok((text.slice(2, text.len()), text.slice(0, 2)))
    } else {
        Err(SyntaxError { position: 0, reason: SyntaxReason::ExpectedOperator })
    }
}

/// Parses the term that stands behind an `or`, from the start of the trimmed
/// input: a parenthesized expression, a negation, a quantifier or a search
/// identifier. Gives what is left behind the term, then the term's record.
pub fn downstream_or_parser<'a>(input: &'a str) -> (r: Result<(&'a str, Condition), SyntaxError>)
    ensures
        same_step(r, step_spec(trim(input@), 0, None)),
{
    let text = Input::trimmed(input);
    step(&text, 0, None)
}

/// Parses one step of a disjunction from the start of the trimmed input: the
/// keyword `or`, then one term. Gives what is left behind the term, then the
/// record of the term as a step of `or`.
///
/// Positions count from the start of the trimmed input.
pub fn or_parser<'a>(input: &'a str) -> (r: Result<(&'a str, Condition), SyntaxError>)
    ensures
        same_step(r, or_parser_spec(input@)),
{
    let text = Input::trimmed(input);
    if text.keyword_at(0, Keyword::Or) {
        step(&text, 2, Some(OPERATOR::OR))
    } else {
        Err(SyntaxError { position: 0, reason: SyntaxReason::ExpectedOperator })
    }
}

} // verus!
