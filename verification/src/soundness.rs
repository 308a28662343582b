//! What holds of every tree that the grammar parses.

use crate::grammar::{
    conjunction_of, disjunction_of, parse_and, parse_and_list, parse_atom, parse_not, parse_or,
    parse_or_list, parse_quantifier, Parse,
};
use crate::node::{lemma_well_formed_from, well_formed, Expr};
use crate::text::{
    is_name, is_reserved, is_word_char, keyword_at, lemma_skip_spaces, lemma_word_end,
    skip_spaces, word_end, word_is, Keyword,
};
use vstd::prelude::*;

verus! {

/// A parse from `p` that succeeded gave a well-formed tree and ended between
/// `p` and the end of the input.
pub open spec fn sound(s: Seq<char>, p: int, r: Parse) -> bool {
    r matches Parse::Done { node, next } ==> well_formed(node) && p <= next <= s.len()
}

/// The word from `from` up to `to`, which spells no reserved word, is a
/// name.
proof fn lemma_word_is_name(s: Seq<char>, from: int, to: int)
    requires
        0 <= from < to <= s.len(),
        to == word_end(s, from),
        !is_reserved(s.subrange(from, to)),
    ensures
        is_name(s.subrange(from, to)),
{
    lemma_word_end(s, from);
    let w = s.subrange(from, to);
    assert forall|i: int| 0 <= i < w.len() implies is_word_char(#[trigger] w[i]) by {
        assert(w[i] == s[from + i]);
    }
}

/// What follows the count of a quantifier parses soundly.
pub proof fn lemma_quantifier_sound(s: Seq<char>, p: int, all: bool)
    requires
        0 <= p <= s.len(),
    ensures
        sound(s, p, parse_quantifier(s, p, all)),
{
    let of = skip_spaces(s, p);
    lemma_skip_spaces(s, p);
    let of_end = word_end(s, of);
    lemma_word_end(s, of);
    let target = skip_spaces(s, of_end);
    lemma_skip_spaces(s, of_end);
    let target_end = word_end(s, target);
    lemma_word_end(s, target);
    if parse_quantifier(s, p, all) is Done {
        if !word_is(s, target, Keyword::Them) {
            lemma_word_is_name(s, target, target_end);
        }
    }
}

/// An atom parses soundly.
pub proof fn lemma_atom_sound(s: Seq<char>, p: int)
    requires
        0 <= p <= s.len(),
    ensures
        sound(s, p, parse_atom(s, p)),
    decreases s.len() - p, 0nat,
{
    let start = skip_spaces(s, p);
    lemma_skip_spaces(s, p);
    let end = word_end(s, start);
    lemma_word_end(s, start);
    if start < s.len() && s[start] == '(' {
        lemma_or_sound(s, start + 1);
        match parse_or(s, start + 1) {
            Parse::Done { node, next } => {
                lemma_skip_spaces(s, next);
            },
            _ => {},
        }
    } else if end == start {
    } else if word_is(s, start, Keyword::One) {
        lemma_quantifier_sound(s, end, false);
    } else if word_is(s, start, Keyword::All) {
        lemma_quantifier_sound(s, end, true);
    } else if is_reserved(s.subrange(start, end)) {
    } else {
        lemma_word_is_name(s, start, end);
    }
}

/// A negation parses soundly.
pub proof fn lemma_not_sound(s: Seq<char>, p: int)
    requires
        0 <= p <= s.len(),
    ensures
        sound(s, p, parse_not(s, p)),
    decreases s.len() - p, 1nat,
{
    let start = skip_spaces(s, p);
    lemma_skip_spaces(s, p);
    if keyword_at(s, start, Keyword::Not) {
        lemma_word_end(s, start);
        lemma_not_sound(s, start + 3);
    } else {
        lemma_atom_sound(s, p);
    }
}

/// A list of negations behind well-formed terms parses soundly.
pub proof fn lemma_and_list_sound(s: Seq<char>, p: int, before: Seq<Expr>)
    requires
        0 <= p <= s.len(),
        forall|i: int| 0 <= i < before.len() ==> well_formed(#[trigger] before[i]),
    ensures
        sound(s, p, parse_and_list(s, p, before)),
    decreases s.len() - p, 2nat,
{
    lemma_not_sound(s, p);
    match parse_not(s, p) {
        Parse::Done { node, next } => {
            let terms = before.push(node);
            let and = skip_spaces(s, next);
            lemma_skip_spaces(s, next);
            if keyword_at(s, and, Keyword::And) {
                lemma_word_end(s, and);
                lemma_and_list_sound(s, and + 3, terms);
            } else {
                lemma_well_formed_from(terms, 0);
                assert(well_formed(conjunction_of(terms)));
            }
        },
        _ => {},
    }
}

/// A conjunction parses soundly.
pub proof fn lemma_and_sound(s: Seq<char>, p: int)
    requires
        0 <= p <= s.len(),
    ensures
        sound(s, p, parse_and(s, p)),
    decreases s.len() - p, 3nat,
{
    lemma_and_list_sound(s, p, Seq::empty());
}

/// A list of conjunctions behind well-formed terms parses soundly.
pub proof fn lemma_or_list_sound(s: Seq<char>, p: int, before: Seq<Expr>)
    requires
        0 <= p <= s.len(),
        forall|i: int| 0 <= i < before.len() ==> well_formed(#[trigger] before[i]),
    ensures
        sound(s, p, parse_or_list(s, p, before)),
    decreases s.len() - p, 4nat,
{
    lemma_and_sound(s, p);
    match parse_and(s, p) {
        Parse::Done { node, next } => {
            let terms = before.push(node);
            let or = skip_spaces(s, next);
            lemma_skip_spaces(s, next);
            if keyword_at(s, or, Keyword::Or) {
                lemma_word_end(s, or);
                lemma_or_list_sound(s, or + 2, terms);
            } else {
                lemma_well_formed_from(terms, 0);
                assert(well_formed(disjunction_of(terms)));
            }
        },
        _ => {},
    }
}

/// A disjunction parses soundly.
pub proof fn lemma_or_sound(s: Seq<char>, p: int)
    requires
        0 <= p <= s.len(),
    ensures
        sound(s, p, parse_or(s, p)),
    decreases s.len() - p, 5nat,
{
    lemma_or_list_sound(s, p, Seq::empty());
}

/// Every tree that the grammar parses is well formed: its names and patterns
/// are words that spell no keyword, and its conjunctions and disjunctions
/// have at least two terms. No parser ends before the position it started
/// from, nor behind the end of the input.
pub proof fn lemma_parse_sound(s: Seq<char>, p: int)
    requires
        0 <= p <= s.len(),
    ensures
        sound(s, p, parse_atom(s, p)),
        sound(s, p, parse_not(s, p)),
        sound(s, p, parse_and(s, p)),
        sound(s, p, parse_or(s, p)),
{
    lemma_atom_sound(s, p);
    lemma_not_sound(s, p);
    lemma_and_sound(s, p);
    lemma_or_sound(s, p);
}

} // verus!
