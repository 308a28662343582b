//! The grammar of conditions, as functions from a position in the input to
//! the tree parsed there and the position behind it.
//!
//! ```text
//! disjunction := conjunction ( "or" conjunction )*
//! conjunction := negation ( "and" negation )*
//! negation    := "not" negation | atom
//! atom        := "(" disjunction ")" | count "of" target | name
//! count       := "1" | "all"
//! target      := "them" | name
//! ```
//!
//! Keywords are matched whatever the case of their letters. Whitespace
//! between tokens is skipped.

use crate::node::Expr;
use crate::text::{
    is_reserved, keyword_at, lemma_skip_spaces, lemma_word_end, skip_spaces, word_end, word_is,
    Keyword,
};
use vstd::prelude::*;

verus! {

/// Why the grammar could not match.
#[derive(Clone, Copy, Debug, PartialEq, Eq)]
pub enum SyntaxReason {
    /// A term was expected: a name, a quantifier or an opening parenthesis.
    ExpectedTerm,
    /// A parenthesized expression was not closed.
    ExpectedClosingParen,
    /// `1` or `all` was not followed by `of`.
    ExpectedOf,
    /// `of` was not followed by `them` or a pattern.
    ExpectedTarget,
    /// A reserved word stands where a name was expected.
    ReservedWord,
    /// An operator keyword was expected. The grammar itself never fails for
    /// this reason: a list of terms ends where no operator follows. Only the
    /// parsers of a single step do, which demand their keyword.
    ExpectedOperator,
}

/// What a parser of the grammar gives at a position.
pub enum Parse {
    /// The tree parsed and the position behind the text it was parsed from.
    Done { node: Expr, next: int },
    /// The position at which the grammar could not match, and why.
    Failed { position: int, reason: SyntaxReason },
}

/// The tree for a list of terms joined by `and`: a single term stands for
/// itself.
pub open spec fn conjunction_of(terms: Seq<Expr>) -> Expr {
    if terms.len() == 1 {
        terms[0]
    } else {
        Expr::And(terms)
    }
}

/// The tree for a list of terms joined by `or`: a single term stands for
/// itself.
pub open spec fn disjunction_of(terms: Seq<Expr>) -> Expr {
    if terms.len() == 1 {
        terms[0]
    } else {
        Expr::Or(terms)
    }
}

/// What follows the count of a quantifier, from the position `p` behind it:
/// `of`, then `them` or a pattern.
pub open spec fn parse_quantifier(s: Seq<char>, p: int, all: bool) -> Parse {
    let of = skip_spaces(s, p);
    let of_end = word_end(s, of);
    let target = skip_spaces(s, of_end);
    let target_end = word_end(s, target);
    let word = s.subrange(target, target_end);
    if !word_is(s, of, Keyword::Of) {
        Parse::Failed { position: of, reason: SyntaxReason::ExpectedOf }
    } else if target_end == target {
        Parse::Failed { position: target, reason: SyntaxReason::ExpectedTarget }
    } else if word_is(s, target, Keyword::Them) {
        Parse::Done { node: if all { Expr::AllOfThem } else { Expr::OneOfThem }, next: target_end }
    } else if is_reserved(word) {
        Parse::Failed { position: target, reason: SyntaxReason::ReservedWord }
    } else {
        Parse::Done {
            node: if all { Expr::AllOfPattern(word) } else { Expr::OneOfPattern(word) },
            next: target_end,
        }
    }
}

/// An atom at `p`: a parenthesized disjunction, a quantifier or a name.
pub open spec fn parse_atom(s: Seq<char>, p: int) -> Parse
    decreases s.len() - p, 0nat,
{
    let start = skip_spaces(s, p);
    let end = word_end(s, start);
    let word = s.subrange(start, end);
    if 0 <= start < s.len() && s[start] == '(' {
        proof {
            lemma_skip_spaces(s, p);
        }
        match parse_or(s, start + 1) {
            Parse::Done { node, next } => {
                let close = skip_spaces(s, next);
                if 0 <= close < s.len() && s[close] == ')' {
                    Parse::Done { node, next: close + 1 }
                } else {
                    Parse::Failed { position: close, reason: SyntaxReason::ExpectedClosingParen }
                }
            },
            Parse::Failed { position, reason } => Parse::Failed { position, reason },
        }
    } else if end == start {
        Parse::Failed { position: start, reason: SyntaxReason::ExpectedTerm }
    } else if word_is(s, start, Keyword::One) {
        parse_quantifier(s, end, false)
    } else if word_is(s, start, Keyword::All) {
        parse_quantifier(s, end, true)
    } else if is_reserved(word) {
        Parse::Failed { position: start, reason: SyntaxReason::ReservedWord }
    } else {
        Parse::Done { node: Expr::Identifier(word), next: end }
    }
}

/// A negation at `p`: any number of `not`, then an atom.
pub open spec fn parse_not(s: Seq<char>, p: int) -> Parse
    decreases s.len() - p, 1nat,
{
    let start = skip_spaces(s, p);
    if keyword_at(s, start, Keyword::Not) {
        proof {
            lemma_skip_spaces(s, p);
            lemma_word_end(s, start);
        }
        match parse_not(s, start + 3) {
            Parse::Done { node, next } => Parse::Done { node: Expr::Not(Box::new(node)), next },
            Parse::Failed { position, reason } => Parse::Failed { position, reason },
        }
    } else {
        parse_atom(s, p)
    }
}

/// The negations joined by `and` from `p` on, behind the terms `before`
/// parsed already. The list ends, without failing, where no `and` follows;
/// the position behind its last term is the one given back.
///
/// A term never ends before the position it was parsed from
/// (`lemma_parse_sound`), so the test `p <= next` never fails for a position
/// in the input.
pub open spec fn parse_and_list(s: Seq<char>, p: int, before: Seq<Expr>) -> Parse
    decreases s.len() - p, 2nat,
{
    match parse_not(s, p) {
        Parse::Done { node, next } => {
            let terms = before.push(node);
            let and = skip_spaces(s, next);
            if p <= next && keyword_at(s, and, Keyword::And) {
                proof {
                    lemma_skip_spaces(s, next);
                    lemma_word_end(s, and);
                }
                parse_and_list(s, and + 3, terms)
            } else {
                Parse::Done { node: conjunction_of(terms), next }
            }
        },
        Parse::Failed { position, reason } => Parse::Failed { position, reason },
    }
}

/// A conjunction at `p`: one negation, or several joined by `and`.
pub open spec fn parse_and(s: Seq<char>, p: int) -> Parse
    decreases s.len() - p, 3nat,
{
    parse_and_list(s, p, Seq::empty())
}

/// The conjunctions joined by `or` from `p` on, behind the terms `before`
/// parsed already. The list ends, without failing, where no `or` follows;
/// the position behind its last term is the one given back.
pub open spec fn parse_or_list(s: Seq<char>, p: int, before: Seq<Expr>) -> Parse
    decreases s.len() - p, 4nat,
{
    match parse_and(s, p) {
        Parse::Done { node, next } => {
            let terms = before.push(node);
            let or = skip_spaces(s, next);
            if p <= next && keyword_at(s, or, Keyword::Or) {
                proof {
                    lemma_skip_spaces(s, next);
                    lemma_word_end(s, or);
                }
                parse_or_list(s, or + 2, terms)
            } else {
                Parse::Done { node: disjunction_of(terms), next }
            }
        },
        Parse::Failed { position, reason } => Parse::Failed { position, reason },
    }
}

/// A disjunction at `p`: one conjunction, or several joined by `or`. This is
/// the root of the grammar.
pub open spec fn parse_or(s: Seq<char>, p: int) -> Parse
    decreases s.len() - p, 5nat,
{
    parse_or_list(s, p, Seq::empty())
}

} // verus!
