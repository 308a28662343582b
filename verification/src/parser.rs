//! The parsers of the grammar: each reads the input from a position on and
//! gives the tree parsed there with the position behind it, or the place and
//! reason of the failure.

use crate::grammar::{
    conjunction_of, disjunction_of, parse_and, parse_and_list, parse_atom, parse_not, parse_or,
    parse_or_list, parse_quantifier, Parse, SyntaxReason,
};
use crate::node::{models, ConditionNode};
use crate::text::{
    char_is_space, is_reserved, keyword_at, lemma_skip_spaces, lemma_spells_slice, lemma_word_end,
    skip_spaces, skip_spaces_at, spells, spells_keyword, to_chars, trim, trimmed_len,
    trimmed_len_of, word_end, word_end_at, Keyword,
};
use vstd::prelude::*;
use vstd::string::*;

verus! {

/// The place at which the grammar could not match, counted in characters from
/// the start of the input, and the reason.
#[derive(Clone, Copy, Debug, PartialEq, Eq)]
pub struct SyntaxError {
    pub position: usize,
    pub reason: SyntaxReason,
}

/// What a parser gives: the tree and the position behind it, or the failure.
pub type Parsed = Result<(ConditionNode, usize), SyntaxError>;

/// A parser's result `r` is the outcome `parse` of the grammar.
pub open spec fn agrees(r: Parsed, parse: Parse) -> bool {
    match r {
        Ok((node, next)) => parse == (Parse::Done { node: node@, next: next as int }),
        Err(e) => parse == (Parse::Failed { position: e.position as int, reason: e.reason }),
    }
}

/// A condition text together with its characters, so that a position is an
/// index.
pub struct Input<'a> {
    text: &'a str,
    chars: Vec<char>,
}

impl<'a> View for Input<'a> {
    type V = Seq<char>;

    closed spec fn view(&self) -> Seq<char> {
        self.chars@
    }
}

impl<'a> Input<'a> {
    #[verifier::type_invariant]
    spec fn wf(self) -> bool {
        self.chars@ == self.text@
    }

    /// The input for the whole of `text`.
    pub fn new(text: &'a str) -> (r: Self)
        ensures
            r@ == text@,
    {
        Input { text, chars: to_chars(text) }
    }

    /// The input for `text` without its leading and trailing whitespace.
    pub fn trimmed(text: &'a str) -> (r: Self)
        ensures
            r@ == trim(text@),
    {
        let whole = Input::new(text);
        let from = whole.skip_spaces(0);
        let to = whole.trimmed_len();
        if from < to {
            Input::new(whole.slice(from, to))
        } else {
            let r = Input::new(whole.slice(0, 0));
            assert(r@ =~= Seq::<char>::empty());
            r
        }
    }

    /// The number of characters.
    pub fn len(&self) -> (n: usize)
        ensures
            n == self@.len(),
    {
        self.chars.len()
    }

    /// The character at position `i`.
    pub fn char_at(&self, i: usize) -> (c: char)
        requires
            i < self@.len(),
        ensures
            c == self@[i as int],
    {
        self.chars[i]
    }

    /// The text from `from` up to `to`.
    pub fn slice(&self, from: usize, to: usize) -> (r: &'a str)
        requires
            from <= to <= self@.len(),
        ensures
            r@ == self@.subrange(from as int, to as int),
    {
        proof {
            use_type_invariant(self);
        }
        self.text.substring_char(from, to)
    }

    /// The first position at or after `p` that holds no whitespace.
    pub fn skip_spaces(&self, p: usize) -> (q: usize)
        requires
            p <= self@.len(),
        ensures
            q == skip_spaces(self@, p as int),
            p <= q <= self@.len(),
    {
        skip_spaces_at(&self.chars, p)
    }

    /// The end of the word that starts at `p`.
    pub fn word_end(&self, p: usize) -> (q: usize)
        requires
            p <= self@.len(),
        ensures
            q == word_end(self@, p as int),
            p <= q <= self@.len(),
    {
        word_end_at(&self.chars, p)
    }

    /// Whether the characters from `from` up to `to` spell the keyword `kw`.
    pub fn spells(&self, from: usize, to: usize, kw: Keyword) -> (r: bool)
        requires
            from <= to <= self@.len(),
        ensures
            r == spells(self@, from as int, to as int, kw.text()),
    {
        spells_keyword(&self.chars, from, to, kw)
    }

    /// Whether the word from `from` up to `to` is reserved.
    pub fn is_reserved(&self, from: usize, to: usize) -> (r: bool)
        requires
            from <= to <= self@.len(),
        ensures
            r == is_reserved(self@.subrange(from as int, to as int)),
    {
        proof {
            lemma_spells_slice(self@, from as int, to as int, Keyword::And.text());
            lemma_spells_slice(self@, from as int, to as int, Keyword::Or.text());
            lemma_spells_slice(self@, from as int, to as int, Keyword::Not.text());
            lemma_spells_slice(self@, from as int, to as int, Keyword::Of.text());
            lemma_spells_slice(self@, from as int, to as int, Keyword::Them.text());
            lemma_spells_slice(self@, from as int, to as int, Keyword::One.text());
            lemma_spells_slice(self@, from as int, to as int, Keyword::All.text());
        }
        self.spells(from, to, Keyword::And) || self.spells(from, to, Keyword::Or) || self.spells(
            from,
            to,
            Keyword::Not,
        ) || self.spells(from, to, Keyword::Of) || self.spells(from, to, Keyword::Them)
            || self.spells(from, to, Keyword::One) || self.spells(from, to, Keyword::All)
    }

    /// The length of the input without its trailing whitespace.
    pub fn trimmed_len(&self) -> (n: usize)
        ensures
            n == trimmed_len(self@),
            n <= self@.len(),
    {
        trimmed_len_of(&self.chars)
    }

    /// Whether the character `c` occurs in the input.
    pub fn contains(&self, c: char) -> (r: bool)
        ensures
            r == self@.contains(c),
    {
        let mut i: usize = 0;
        while i < self.chars.len()
            invariant
                i <= self.chars.len(),
                forall|j: int| 0 <= j < i ==> self.chars@[j] != c,
            decreases self.chars.len() - i,
        {
            if self.chars[i] == c {
                return true;
            }
            i = i + 1;
        }
        false
    }

    /// Whether the keyword `kw` stands at `p` as an operator.
    pub fn keyword_at(&self, p: usize, kw: Keyword) -> (r: bool)
        requires
            p <= self@.len(),
        ensures
            r == keyword_at(self@, p as int, kw),
    {
        let end = self.word_end(p);
        self.spells(p, end, kw) && (end == self.len() || char_is_space(self.char_at(end)))
    }
}

/// Behind the end of the input every parser fails at once.
proof fn lemma_parse_outside(s: Seq<char>, p: int)
    requires
        p > s.len(),
    ensures
        parse_atom(s, p) == (Parse::Failed { position: p, reason: SyntaxReason::ExpectedTerm }),
        parse_not(s, p) == (Parse::Failed { position: p, reason: SyntaxReason::ExpectedTerm }),
        parse_and(s, p) == (Parse::Failed { position: p, reason: SyntaxReason::ExpectedTerm }),
        parse_or(s, p) == (Parse::Failed { position: p, reason: SyntaxReason::ExpectedTerm }),
{
    lemma_skip_spaces(s, p);
    lemma_word_end(s, p);
    assert(parse_atom(s, p) == (Parse::Failed { position: p, reason: SyntaxReason::ExpectedTerm }));
    assert(parse_not(s, p) == parse_atom(s, p));
    assert(parse_and(s, p) == parse_and_list(s, p, Seq::empty()));
    assert(parse_or(s, p) == parse_or_list(s, p, Seq::empty()));
}

/// The tree for the terms of a conjunction.
fn conjunction(terms: Vec<ConditionNode>) -> (r: ConditionNode)
    requires
        terms.len() >= 1,
    ensures
        r@ == conjunction_of(models(terms@)),
{
    let mut terms = terms;
    if terms.len() == 1 {
        let ghost before = terms@;
        let only = terms.pop().unwrap();
        assert(only == before[0]);
        only
    } else {
        let r = ConditionNode::And(terms);
        assert(r@ == crate::node::Expr::And(models(terms@))) by {
            assert(r@->And_0 =~= models(terms@));
        }
        r
    }
}

/// The tree for the terms of a disjunction.
fn disjunction(terms: Vec<ConditionNode>) -> (r: ConditionNode)
    requires
        terms.len() >= 1,
    ensures
        r@ == disjunction_of(models(terms@)),
{
    let mut terms = terms;
    if terms.len() == 1 {
        let ghost before = terms@;
        let only = terms.pop().unwrap();
        assert(only == before[0]);
        only
    } else {
        let r = ConditionNode::Or(terms);
        assert(r@ == crate::node::Expr::Or(models(terms@))) by {
            assert(r@->Or_0 =~= models(terms@));
        }
        r
    }
}

/// Parses what follows the count of a quantifier: `of`, then `them` or a
/// pattern.
pub fn parse_quantifier_at(input: &Input, p: usize, all: bool) -> (r: Parsed)
    requires
        p <= input@.len(),
    ensures
        agrees(r, parse_quantifier(input@, p as int, all)),
        r matches Ok((_, next)) ==> p <= next <= input@.len(),
{
    let of = input.skip_spaces(p);
    let of_end = input.word_end(of);
    let target = input.skip_spaces(of_end);
    let target_end = input.word_end(target);
    if !input.spells(of, of_end, Keyword::Of) {
        Err(SyntaxError { position: of, reason: SyntaxReason::ExpectedOf })
    } else if target_end == target {
        Err(SyntaxError { position: target, reason: SyntaxReason::ExpectedTarget })
    } else if input.spells(target, target_end, Keyword::Them) {
        if all {
            Ok((ConditionNode::AllOfThem, target_end))
        } else {
            Ok((ConditionNode::OneOfThem, target_end))
        }
    } else if input.is_reserved(target, target_end) {
        Err(SyntaxError { position: target, reason: SyntaxReason::ReservedWord })
    } else {
        let pattern = input.slice(target, target_end).to_owned();
        if all {
            Ok((ConditionNode::AllOfPattern(pattern), target_end))
        } else {
            Ok((ConditionNode::OneOfPattern(pattern), target_end))
        }
    }
}

/// Parses an atom: a parenthesized disjunction, a quantifier or a name.
pub fn parse_atom_at(input: &Input, p: usize) -> (r: Parsed)
    ensures
        agrees(r, parse_atom(input@, p as int)),
        r matches Ok((_, next)) ==> p <= next <= input@.len(),
    decreases input@.len() - p, 0nat,
{
    if p > input.len() {
        proof {
            lemma_parse_outside(input@, p as int);
        }
        return Err(SyntaxError { position: p, reason: SyntaxReason::ExpectedTerm });
    }
    let start = input.skip_spaces(p);
    let end = input.word_end(start);
    if start < input.len() && input.char_at(start) == '(' {
        match parse_or_at(input, start + 1) {
            Ok((node, next)) => {
                let close = input.skip_spaces(next);
                if close < input.len() && input.char_at(close) == ')' {
                    Ok((node, close + 1))
                } else {
                    Err(
                        SyntaxError {
                            position: close,
                            reason: SyntaxReason::ExpectedClosingParen,
                        },
                    )
                }
            },
            Err(e) => Err(e),
        }
    } else if end == start {
        Err(SyntaxError { position: start, reason: SyntaxReason::ExpectedTerm })
    } else if input.spells(start, end, Keyword::One) {
        parse_quantifier_at(input, end, false)
    } else if input.spells(start, end, Keyword::All) {
        parse_quantifier_at(input, end, true)
    } else if input.is_reserved(start, end) {
        Err(SyntaxError { position: start, reason: SyntaxReason::ReservedWord })
    } else {
        Ok((ConditionNode::Identifier(input.slice(start, end).to_owned()), end))
    }
}

/// Parses a negation: any number of `not`, then an atom.
pub fn parse_not_at(input: &Input, p: usize) -> (r: Parsed)
    ensures
        agrees(r, parse_not(input@, p as int)),
        r matches Ok((_, next)) ==> p <= next <= input@.len(),
    decreases input@.len() - p, 1nat,
{
    if p > input.len() {
        proof {
            lemma_parse_outside(input@, p as int);
        }
        return Err(SyntaxError { position: p, reason: SyntaxReason::ExpectedTerm });
    }
    let start = input.skip_spaces(p);
    if input.keyword_at(start, Keyword::Not) {
        match parse_not_at(input, start + 3) {
            Ok((node, next)) => Ok((ConditionNode::Not(Box::new(node)), next)),
            Err(e) => Err(e),
        }
    } else {
        parse_atom_at(input, p)
    }
}

/// Parses a conjunction: one negation, or several joined by `and`.
pub fn parse_and_at(input: &Input, p: usize) -> (r: Parsed)
    ensures
        agrees(r, parse_and(input@, p as int)),
        r matches Ok((_, next)) ==> p <= next <= input@.len(),
    decreases input@.len() - p, 3nat,
{
    if p > input.len() {
        proof {
            lemma_parse_outside(input@, p as int);
        }
        return Err(SyntaxError { position: p, reason: SyntaxReason::ExpectedTerm });
    }
    let mut terms: Vec<ConditionNode> = Vec::new();
    let mut at: usize = p;
    assert(models(terms@) =~= Seq::empty());
    loop
        invariant
            p <= at <= input@.len() <= usize::MAX,
            parse_and(input@, p as int) == parse_and_list(input@, at as int, models(terms@)),
        decreases input@.len() - at,
    {
        match parse_not_at(input, at) {
            Err(e) => {
                return Err(e);
            },
            Ok((node, next)) => {
                let ghost before = terms@;
                terms.push(node);
                assert(models(terms@) =~= models(before).push(node@));
                let and = input.skip_spaces(next);
                if input.keyword_at(and, Keyword::And) {
                    at = and + 3;
                } else {
                    return Ok((conjunction(terms), next));
                }
            },
        }
    }
}

/// Parses a disjunction, the root of the grammar: one conjunction, or several
/// joined by `or`.
pub fn parse_or_at(input: &Input, p: usize) -> (r: Parsed)
    ensures
        agrees(r, parse_or(input@, p as int)),
        r matches Ok((_, next)) ==> p <= next <= input@.len(),
    decreases input@.len() - p, 5nat,
{
    if p > input.len() {
        proof {
            lemma_parse_outside(input@, p as int);
        }
        return Err(SyntaxError { position: p, reason: SyntaxReason::ExpectedTerm });
    }
    let mut terms: Vec<ConditionNode> = Vec::new();
    let mut at: usize = p;
    assert(models(terms@) =~= Seq::empty());
    loop
        invariant
            p <= at <= input@.len() <= usize::MAX,
            parse_or(input@, p as int) == parse_or_list(input@, at as int, models(terms@)),
        decreases input@.len() - at,
    {
        match parse_and_at(input, at) {
            Err(e) => {
                return Err(e);
            },
            Ok((node, next)) => {
                let ghost before = terms@;
                terms.push(node);
                assert(models(terms@) =~= models(before).push(node@));
                let or = input.skip_spaces(next);
                if input.keyword_at(or, Keyword::Or) {
                    at = or + 2;
                } else {
                    return Ok((disjunction(terms), next));
                }
            },
        }
    }
}

} // verus!
