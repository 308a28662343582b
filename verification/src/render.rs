//! The canonical text of a condition tree: the one that compiles back to the
//! same tree.

use crate::node::{lemma_model_of_terms, models, ConditionNode, Expr};
use crate::text::Keyword;
use vstd::prelude::*;
use vstd::string::*;

verus! {

/// The text of a tree where a single term is expected: a conjunction or
/// disjunction stands in parentheses.
pub open spec fn render_term(e: Expr) -> Seq<char>
    decreases e, 0nat,
{
    match e {
        Expr::Identifier(name) => name,
        Expr::Not(inner) => Keyword::Not.text() + seq![' '] + render_term(*inner),
        Expr::And(terms) => seq!['('] + render_list(terms, 0, Keyword::And) + seq![')'],
        Expr::Or(terms) => seq!['('] + render_list(terms, 0, Keyword::Or) + seq![')'],
        Expr::OneOfPattern(pattern) => Keyword::One.text() + seq![' '] + Keyword::Of.text()
            + seq![' '] + pattern,
        Expr::AllOfPattern(pattern) => Keyword::All.text() + seq![' '] + Keyword::Of.text()
            + seq![' '] + pattern,
        Expr::OneOfThem => Keyword::One.text() + seq![' '] + Keyword::Of.text() + seq![' ']
            + Keyword::Them.text(),
        Expr::AllOfThem => Keyword::All.text() + seq![' '] + Keyword::Of.text() + seq![' ']
            + Keyword::Them.text(),
    }
}

/// The texts of the terms from index `from` on, joined by the keyword `word`
/// with one space on either side.
pub open spec fn render_list(terms: Seq<Expr>, from: int, word: Keyword) -> Seq<char>
    decreases terms, terms.len() - from,
{
    if 0 <= from < terms.len() {
        if from + 1 < terms.len() {
            render_term(terms[from]) + seq![' '] + word.text() + seq![' '] + render_list(
                terms,
                from + 1,
                word,
            )
        } else {
            render_term(terms[from])
        }
    } else {
        Seq::empty()
    }
}

/// The canonical text of a tree: keywords in lower case, one space between
/// tokens, and parentheses round every conjunction or disjunction that is a
/// term of another node.
pub open spec fn render_spec(e: Expr) -> Seq<char> {
    match e {
        Expr::And(terms) => render_list(terms, 0, Keyword::And),
        Expr::Or(terms) => render_list(terms, 0, Keyword::Or),
        _ => render_term(e),
    }
}

/// Appends a space.
fn push_space(out: &mut String)
    ensures
        final(out)@ == old(out)@ + seq![' '],
{
    proof {
        reveal_strlit(" ");
    }
    assert(" "@ =~= seq![' ']);
    out.append(" ");
}

/// Appends the text of a term.
fn render_term_into(node: &ConditionNode, out: &mut String)
    ensures
        final(out)@ == old(out)@ + render_term(node@),
    decreases node, 0nat,
{
    let ghost before = out@;
    proof {
        lemma_model_of_terms(*node);
    }
    match node {
        ConditionNode::Identifier(name) => {
            out.append(name.as_str());
        },
        ConditionNode::Not(inner) => {
            out.append(Keyword::Not.as_str());
            push_space(out);
            render_term_into(inner, out);
            assert(out@ =~= before + render_term(node@));
        },
        ConditionNode::And(terms) => {
            proof {
                reveal_strlit("(");
                reveal_strlit(")");
            }
            assert("("@ =~= seq!['(']);
            assert(")"@ =~= seq![')']);
            out.append("(");
            render_list_into(terms, Keyword::And, out);
            out.append(")");
            assert(out@ =~= before + render_term(node@));
        },
        ConditionNode::Or(terms) => {
            proof {
                reveal_strlit("(");
                reveal_strlit(")");
            }
            assert("("@ =~= seq!['(']);
            assert(")"@ =~= seq![')']);
            out.append("(");
            render_list_into(terms, Keyword::Or, out);
            out.append(")");
            assert(out@ =~= before + render_term(node@));
        },
        ConditionNode::OneOfPattern(pattern) => {
            out.append(Keyword::One.as_str());
            push_space(out);
            out.append(Keyword::Of.as_str());
            push_space(out);
            out.append(pattern.as_str());
            assert(out@ =~= before + render_term(node@));
        },
        ConditionNode::AllOfPattern(pattern) => {
            out.append(Keyword::All.as_str());
            push_space(out);
            out.append(Keyword::Of.as_str());
            push_space(out);
            out.append(pattern.as_str());
            assert(out@ =~= before + render_term(node@));
        },
        ConditionNode::OneOfThem => {
            out.append(Keyword::One.as_str());
            push_space(out);
            out.append(Keyword::Of.as_str());
            push_space(out);
            out.append(Keyword::Them.as_str());
            assert(out@ =~= before + render_term(node@));
        },
        ConditionNode::AllOfThem => {
            out.append(Keyword::All.as_str());
            push_space(out);
            out.append(Keyword::Of.as_str());
            push_space(out);
            out.append(Keyword::Them.as_str());
            assert(out@ =~= before + render_term(node@));
        },
    }
}

/// Appends the texts of the terms, joined by the keyword `word`.
fn render_list_into(terms: &Vec<ConditionNode>, word: Keyword, out: &mut String)
    ensures
        final(out)@ == old(out)@ + render_list(models(terms@), 0, word),
    decreases terms, 1nat,
{
    let ghost before = out@;
    let ghost ms = models(terms@);
    let mut i: usize = 0;
    while i < terms.len()
        invariant
            i <= terms.len(),
            ms == models(terms@),
            out@ + render_list(ms, i as int, word) == before + render_list(ms, 0, word),
        decreases terms.len() - i,
    {
        let ghost at = out@;
        assert(ms[i as int] == terms[i as int]@);
        render_term_into(&terms[i], out);
        if i + 1 < terms.len() {
            push_space(out);
            out.append(word.as_str());
            push_space(out);
            assert(out@ + render_list(ms, i as int + 1, word) =~= at + render_list(
                ms,
                i as int,
                word,
            ));
        } else {
            assert(render_list(ms, i as int + 1, word) =~= Seq::<char>::empty());
            assert(out@ + render_list(ms, i as int + 1, word) =~= at + render_list(
                ms,
                i as int,
                word,
            ));
        }
        i = i + 1;
    }
    assert(out@ + Seq::<char>::empty() =~= out@);
}

/// The text of a tree where a single term is expected: a conjunction or
/// disjunction stands in parentheses.
pub fn render_as_term(node: &ConditionNode) -> (text: String)
    ensures
        text@ == render_term(node@),
{
    let mut out = String::new();
    render_term_into(node, &mut out);
    assert(Seq::<char>::empty() + render_term(node@) =~= render_term(node@));
    out
}

/// The canonical text of a condition tree.
///
/// Compiling this text gives the tree back (`lemma_round_trip`).
pub fn render(node: &ConditionNode) -> (text: String)
    ensures
        text@ == render_spec(node@),
{
    let mut out = String::new();
    proof {
        lemma_model_of_terms(*node);
    }
    match node {
        ConditionNode::And(terms) => {
            render_list_into(terms, Keyword::And, &mut out);
        },
        ConditionNode::Or(terms) => {
            render_list_into(terms, Keyword::Or, &mut out);
        },
        _ => {
            render_term_into(node, &mut out);
        },
    }
    assert(Seq::<char>::empty() + render_spec(node@) =~= render_spec(node@));
    out
}

} // verus!
