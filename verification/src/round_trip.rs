//! Rendering and compiling are inverse to each other: the text of a parsed
//! tree parses back to the same tree.

use crate::compiler::{compile_spec, first_unresolved};
use crate::grammar::{
    conjunction_of, disjunction_of, parse_and, parse_and_list, parse_atom, parse_not, parse_or,
    parse_or_list, parse_quantifier, Parse,
};
use crate::node::{well_formed, well_formed_from, Expr};
use crate::render::{render_list, render_spec, render_term};
use crate::soundness::lemma_parse_sound;
use crate::text::{
    closes, has_at, is_name, is_space, is_word_char, keyword_at, lemma_has_at_index,
    lemma_has_at_split, lemma_keyword_here, lemma_keyword_text, lemma_name_here,
    lemma_skip_spaces, lemma_skip_spaces_to, lemma_word_end_to, skip_spaces, spells, stops, trim,
    trimmed_len, word_end, word_is, Keyword,
};
use vstd::prelude::*;

verus! {

/// A text that is not empty, holds no pipe, and neither starts nor ends with
/// whitespace.
pub open spec fn tidy(t: Seq<char>) -> bool {
    &&& t.len() > 0
    &&& !is_space(t[0])
    &&& !is_space(t.last())
    &&& forall|i: int| 0 <= i < t.len() ==> #[trigger] t[i] != '|'
}

/// The text of a keyword is tidy.
proof fn lemma_keyword_tidy(kw: Keyword)
    ensures
        tidy(kw.text()),
{
    lemma_keyword_text(kw);
    let t = kw.text();
    assert(is_word_char(t[0]));
    assert(is_word_char(t[t.len() - 1]));
    assert forall|i: int| 0 <= i < t.len() implies #[trigger] t[i] != '|' by {
        assert(is_word_char(t[i]));
    }
}

/// A name is tidy.
proof fn lemma_name_tidy(w: Seq<char>)
    requires
        is_name(w),
    ensures
        tidy(w),
{
    assert(is_word_char(w[0]));
    assert(is_word_char(w[w.len() - 1]));
    assert forall|i: int| 0 <= i < w.len() implies #[trigger] w[i] != '|' by {
        assert(is_word_char(w[i]));
    }
}

/// Two tidy texts with one space between them make a tidy text, which starts
/// as the first does.
proof fn lemma_tidy_spaced(a: Seq<char>, b: Seq<char>)
    requires
        tidy(a),
        tidy(b),
    ensures
        tidy(a + seq![' '] + b),
        (a + seq![' '] + b)[0] == a[0],
{
    let t = a + seq![' '] + b;
    assert(t[0] == a[0]);
    assert(t.last() == b.last());
    assert forall|i: int| 0 <= i < t.len() implies #[trigger] t[i] != '|' by {
        if i < a.len() {
            assert(t[i] == a[i]);
        } else if i == a.len() {
            assert(t[i] == ' ');
        } else {
            assert(t[i] == b[i - a.len() - 1]);
        }
    }
}

/// A tidy text in parentheses is tidy.
proof fn lemma_tidy_parenthesized(a: Seq<char>)
    requires
        tidy(a),
    ensures
        tidy(seq!['('] + a + seq![')']),
{
    let t = seq!['('] + a + seq![')'];
    assert(t[0] == '(');
    assert(t.last() == ')');
    assert forall|i: int| 0 <= i < t.len() implies #[trigger] t[i] != '|' by {
        if i == 0 {
        } else if i <= a.len() {
            assert(t[i] == a[i - 1]);
        } else {
        }
    }
}

/// The text of a well-formed term is tidy.
proof fn lemma_term_tidy(e: Expr)
    requires
        well_formed(e),
    ensures
        tidy(render_term(e)),
    decreases e, 0nat,
{
    lemma_keyword_tidy(Keyword::Not);
    lemma_keyword_tidy(Keyword::One);
    lemma_keyword_tidy(Keyword::All);
    lemma_keyword_tidy(Keyword::Of);
    lemma_keyword_tidy(Keyword::Them);
    match e {
        Expr::Identifier(name) => {
            lemma_name_tidy(name);
        },
        Expr::Not(inner) => {
            lemma_term_tidy(*inner);
            lemma_tidy_spaced(Keyword::Not.text(), render_term(*inner));
        },
        Expr::And(terms) => {
            lemma_list_tidy(terms, 0, Keyword::And);
            lemma_tidy_parenthesized(render_list(terms, 0, Keyword::And));
        },
        Expr::Or(terms) => {
            lemma_list_tidy(terms, 0, Keyword::Or);
            lemma_tidy_parenthesized(render_list(terms, 0, Keyword::Or));
        },
        Expr::OneOfPattern(pattern) => {
            lemma_name_tidy(pattern);
            lemma_tidy_spaced(Keyword::One.text(), Keyword::Of.text());
            lemma_tidy_spaced(Keyword::One.text() + seq![' '] + Keyword::Of.text(), pattern);
        },
        Expr::AllOfPattern(pattern) => {
            lemma_name_tidy(pattern);
            lemma_tidy_spaced(Keyword::All.text(), Keyword::Of.text());
            lemma_tidy_spaced(Keyword::All.text() + seq![' '] + Keyword::Of.text(), pattern);
        },
        Expr::OneOfThem => {
            lemma_tidy_spaced(Keyword::One.text(), Keyword::Of.text());
            lemma_tidy_spaced(
                Keyword::One.text() + seq![' '] + Keyword::Of.text(),
                Keyword::Them.text(),
            );
        },
        Expr::AllOfThem => {
            lemma_tidy_spaced(Keyword::All.text(), Keyword::Of.text());
            lemma_tidy_spaced(
                Keyword::All.text() + seq![' '] + Keyword::Of.text(),
                Keyword::Them.text(),
            );
        },
    }
}

/// The text of a list of well-formed terms is tidy.
proof fn lemma_list_tidy(terms: Seq<Expr>, from: int, word: Keyword)
    requires
        0 <= from < terms.len(),
        well_formed_from(terms, from),
    ensures
        tidy(render_list(terms, from, word)),
    decreases terms, terms.len() - from,
{
    lemma_term_tidy(terms[from]);
    if from + 1 < terms.len() {
        lemma_list_tidy(terms, from + 1, word);
        lemma_keyword_tidy(word);
        lemma_tidy_spaced(render_term(terms[from]), word.text());
        lemma_tidy_spaced(
            render_term(terms[from]) + seq![' '] + word.text(),
            render_list(terms, from + 1, word),
        );
    }
}

/// The canonical text of a well-formed tree is tidy.
pub proof fn lemma_rendered_tidy(e: Expr)
    requires
        well_formed(e),
    ensures
        tidy(render_spec(e)),
{
    match e {
        Expr::And(terms) => lemma_list_tidy(terms, 0, Keyword::And),
        Expr::Or(terms) => lemma_list_tidy(terms, 0, Keyword::Or),
        _ => lemma_term_tidy(e),
    }
}

/// Where `head`, a space, a keyword, a space and `tail` stand one behind
/// the other at `b`, each of them stands at its place.
proof fn lemma_layout(s: Seq<char>, b: int, head: Seq<char>, kw: Keyword, tail: Seq<char>)
    requires
        has_at(s, b, head + seq![' '] + kw.text() + seq![' '] + tail),
    ensures
        has_at(s, b, head),
        s[b + head.len()] == ' ',
        has_at(s, b + head.len() + 1, kw.text()),
        s[b + head.len() + 1 + kw.text().len()] == ' ',
        has_at(s, b + head.len() + kw.text().len() + 2, tail),
{
    let sp = seq![' '];
    let k = kw.text();
    lemma_has_at_split(s, b, head + sp + k + sp, tail);
    lemma_has_at_split(s, b, head + sp + k, sp);
    lemma_has_at_split(s, b, head + sp, k);
    lemma_has_at_split(s, b, head, sp);
    lemma_has_at_index(s, b + head.len(), sp, 0);
    lemma_has_at_index(s, b + head.len() + 1 + k.len(), sp, 0);
}

/// Behind a word that ends at `q`: one space, the keyword `kw`, one space
/// and a character that is no space. Then the keyword is found at `q + 1` as
/// an operator, and what follows it starts two positions behind its end.
proof fn lemma_keyword_between(s: Seq<char>, q: int, kw: Keyword)
    requires
        0 <= q,
        q + kw.text().len() + 2 < s.len(),
        s[q] == ' ',
        has_at(s, q + 1, kw.text()),
        s[q + 1 + kw.text().len()] == ' ',
        !is_space(s[q + kw.text().len() + 2]),
    ensures
        stops(s, q),
        skip_spaces(s, q) == q + 1,
        word_end(s, q + 1) == q + 1 + kw.text().len(),
        word_is(s, q + 1, kw),
        keyword_at(s, q + 1, kw),
        forall|other: Keyword|
            other != kw ==> !spells(
                s,
                q + 1,
                q + 1 + kw.text().len(),
                #[trigger] other.text(),
            ),
        skip_spaces(s, q + 1 + kw.text().len()) == q + kw.text().len() + 2,
{
    let k = kw.text().len() as int;
    lemma_keyword_tidy(kw);
    lemma_has_at_index(s, q + 1, kw.text(), 0);
    lemma_skip_spaces_to(s, q, q + 1);
    lemma_keyword_here(s, q + 1, kw);
    lemma_skip_spaces_to(s, q + 1 + k, q + k + 2);
    assert forall|other: Keyword| other != kw implies !spells(
        s,
        q + 1,
        q + 1 + kw.text().len(),
        #[trigger] other.text(),
    ) by {
        assert(!word_is(s, q + 1, other));
    }
}

/// Where an expression is closed, no keyword follows.
proof fn lemma_closed(s: Seq<char>, q: int, kw: Keyword)
    requires
        0 <= q <= s.len(),
        closes(s, q),
    ensures
        stops(s, q),
        skip_spaces(s, q) == q,
        !keyword_at(s, q, kw),
{
    lemma_skip_spaces_to(s, q, q);
    lemma_word_end_to(s, q, q);
    lemma_keyword_text(kw);
}

/// The target of a quantifier, a name, is parsed from its text.
proof fn lemma_quantifier_parses(s: Seq<char>, b: int, count: Keyword, tail: Seq<char>)
    requires
        count == Keyword::One || count == Keyword::All,
        has_at(s, b, count.text() + seq![' '] + Keyword::Of.text() + seq![' '] + tail),
        is_name(tail) || tail == Keyword::Them.text(),
        stops(s, b + (count.text() + seq![' '] + Keyword::Of.text() + seq![' '] + tail).len()),
    ensures
        word_end(s, b) == b + count.text().len(),
        word_is(s, b, count),
        forall|other: Keyword| other != count ==> !word_is(s, b, other),
        s[b] != '(',
        !is_space(s[b]),
        parse_quantifier(s, b + count.text().len(), count == Keyword::All) == (Parse::Done {
            node: if tail == Keyword::Them.text() {
                if count == Keyword::All {
                    Expr::AllOfThem
                } else {
                    Expr::OneOfThem
                }
            } else {
                if count == Keyword::All {
                    Expr::AllOfPattern(tail)
                } else {
                    Expr::OneOfPattern(tail)
                }
            },
            next: b + (count.text() + seq![' '] + Keyword::Of.text() + seq![' '] + tail).len(),
        }),
{
    let c = count.text().len() as int;
    let q = b + c;
    lemma_layout(s, b, count.text(), Keyword::Of, tail);
    lemma_keyword_tidy(count);
    lemma_keyword_tidy(Keyword::Them);
    if is_name(tail) {
        lemma_name_tidy(tail);
    }
    lemma_has_at_index(s, q + 4, tail, 0);
    lemma_keyword_between(s, q, Keyword::Of);
    lemma_keyword_here(s, b, count);
    lemma_has_at_index(s, b, count.text(), 0);
    lemma_keyword_text(count);
    assert(is_word_char(s[b]));
    if tail == Keyword::Them.text() {
        lemma_keyword_here(s, q + 4, Keyword::Them);
    } else {
        lemma_name_here(s, q + 4, tail);
    }
}

/// A name is parsed back from its text.
proof fn lemma_identifier_parses(name: Seq<char>, s: Seq<char>, p: int)
    requires
        is_name(name),
        0 <= p,
        has_at(s, skip_spaces(s, p), name),
        stops(s, skip_spaces(s, p) + name.len()),
    ensures
        parse_not(s, p) == (Parse::Done {
            node: Expr::Identifier(name),
            next: skip_spaces(s, p) + name.len(),
        }),
{
    let b = skip_spaces(s, p);
    lemma_skip_spaces(s, p);
    lemma_name_here(s, b, name);
    assert(!word_is(s, b, Keyword::Not));
    assert(!word_is(s, b, Keyword::One));
    assert(!word_is(s, b, Keyword::All));
    assert(parse_atom(s, p) == (Parse::Done {
        node: Expr::Identifier(name),
        next: b + name.len(),
    }));
}

/// A quantifier is parsed back from its text.
proof fn lemma_counted_parses(e: Expr, s: Seq<char>, p: int)
    requires
        well_formed(e),
        e is OneOfPattern || e is AllOfPattern || e is OneOfThem || e is AllOfThem,
        0 <= p,
        has_at(s, skip_spaces(s, p), render_term(e)),
        stops(s, skip_spaces(s, p) + render_term(e).len()),
    ensures
        parse_not(s, p) == (Parse::Done {
            node: e,
            next: skip_spaces(s, p) + render_term(e).len(),
        }),
{
    let b = skip_spaces(s, p);
    let end = b + render_term(e).len();
    lemma_skip_spaces(s, p);
    match e {
        Expr::OneOfPattern(pattern) => {
            lemma_quantifier_parses(s, b, Keyword::One, pattern);
            lemma_name_not_them(pattern);
            assert(!word_is(s, b, Keyword::Not));
        },
        Expr::AllOfPattern(pattern) => {
            lemma_quantifier_parses(s, b, Keyword::All, pattern);
            lemma_name_not_them(pattern);
            assert(!word_is(s, b, Keyword::Not));
            assert(!word_is(s, b, Keyword::One));
        },
        Expr::OneOfThem => {
            lemma_quantifier_parses(s, b, Keyword::One, Keyword::Them.text());
            assert(!word_is(s, b, Keyword::Not));
        },
        _ => {
            lemma_quantifier_parses(s, b, Keyword::All, Keyword::Them.text());
            assert(!word_is(s, b, Keyword::Not));
            assert(!word_is(s, b, Keyword::One));
        },
    }
    assert(parse_atom(s, p) == (Parse::Done { node: e, next: end }));
}

/// A negation is parsed back from its text.
proof fn lemma_negation_parses(x: Expr, s: Seq<char>, p: int)
    requires
        well_formed(x),
        0 <= p,
        has_at(s, skip_spaces(s, p), Keyword::Not.text() + seq![' '] + render_term(x)),
        stops(s, skip_spaces(s, p) + 4 + render_term(x).len()),
    ensures
        parse_not(s, p) == (Parse::Done {
            node: Expr::Not(Box::new(x)),
            next: skip_spaces(s, p) + 4 + render_term(x).len(),
        }),
    decreases x, 1nat,
{
    let b = skip_spaces(s, p);
    let rx = render_term(x);
    lemma_skip_spaces(s, p);
    lemma_term_tidy(x);
    lemma_has_at_split(s, b, Keyword::Not.text() + seq![' '], rx);
    lemma_has_at_split(s, b, Keyword::Not.text(), seq![' ']);
    lemma_has_at_index(s, b + 3, seq![' '], 0);
    lemma_has_at_index(s, b + 4, rx, 0);
    lemma_keyword_here(s, b, Keyword::Not);
    lemma_skip_spaces_to(s, b + 3, b + 4);
    lemma_term_parses(x, s, b + 3);
    assert(keyword_at(s, b, Keyword::Not));
    assert(parse_not(s, b + 3) == (Parse::Done { node: x, next: b + 4 + rx.len() }));
}

/// A conjunction or disjunction in parentheses is parsed back from its text.
proof fn lemma_group_parses(terms: Seq<Expr>, word: Keyword, s: Seq<char>, p: int)
    requires
        word == Keyword::And || word == Keyword::Or,
        terms.len() >= 2,
        well_formed_from(terms, 0),
        0 <= p,
        has_at(s, skip_spaces(s, p), seq!['('] + render_list(terms, 0, word) + seq![')']),
    ensures
        parse_not(s, p) == (Parse::Done {
            node: if word == Keyword::And {
                Expr::And(terms)
            } else {
                Expr::Or(terms)
            },
            next: skip_spaces(s, p) + render_list(terms, 0, word).len() + 2,
        }),
    decreases terms, terms.len() + 2,
{
    let b = skip_spaces(s, p);
    let list = render_list(terms, 0, word);
    let end = b + list.len() + 2;
    let e = if word == Keyword::And {
        Expr::And(terms)
    } else {
        Expr::Or(terms)
    };
    lemma_skip_spaces(s, p);
    lemma_list_tidy(terms, 0, word);
    lemma_has_at_split(s, b, seq!['('] + list, seq![')']);
    lemma_has_at_split(s, b, seq!['('], list);
    lemma_has_at_index(s, b, seq!['('], 0);
    lemma_has_at_index(s, b + 1, list, 0);
    lemma_has_at_index(s, b + 1 + list.len(), seq![')'], 0);
    lemma_skip_spaces_to(s, b + 1, b + 1);
    if word == Keyword::And {
        lemma_conjunction_parses(terms, s, b + 1);
    } else {
        lemma_disjunction_parses(terms, s, b + 1);
    }
    lemma_word_end_to(s, b, b);
    lemma_skip_spaces_to(s, end - 1, end - 1);
    assert(!keyword_at(s, b, Keyword::Not));
    assert(parse_or(s, b + 1) == (Parse::Done { node: e, next: end - 1 }));
    assert(parse_atom(s, p) == (Parse::Done { node: e, next: end }));
}

/// A term is parsed back from its text.
proof fn lemma_term_parses(e: Expr, s: Seq<char>, p: int)
    requires
        well_formed(e),
        0 <= p,
        has_at(s, skip_spaces(s, p), render_term(e)),
        stops(s, skip_spaces(s, p) + render_term(e).len()),
    ensures
        parse_not(s, p) == (Parse::Done {
            node: e,
            next: skip_spaces(s, p) + render_term(e).len(),
        }),
    decreases e, 0nat,
{
    match e {
        Expr::Identifier(name) => lemma_identifier_parses(name, s, p),
        Expr::Not(inner) => lemma_negation_parses(*inner, s, p),
        Expr::And(terms) => lemma_group_parses(terms, Keyword::And, s, p),
        Expr::Or(terms) => lemma_group_parses(terms, Keyword::Or, s, p),
        _ => lemma_counted_parses(e, s, p),
    }
}

/// A name is not the text of `them`.
proof fn lemma_name_not_them(w: Seq<char>)
    requires
        is_name(w),
    ensures
        w != Keyword::Them.text(),
{
    lemma_keyword_text(Keyword::Them);
    if w == Keyword::Them.text() {
        assert(spells(w, 0, w.len() as int, Keyword::Them.text()));
    }
}

/// A single term that no `and` follows is parsed back as a conjunction of
/// its own.
proof fn lemma_single_parses(e: Expr, s: Seq<char>, p: int)
    requires
        well_formed(e),
        0 <= p,
        has_at(s, skip_spaces(s, p), render_term(e)),
        stops(s, skip_spaces(s, p) + render_term(e).len()),
        !keyword_at(
            s,
            skip_spaces(s, skip_spaces(s, p) + render_term(e).len()),
            Keyword::And,
        ),
    ensures
        parse_and(s, p) == (Parse::Done {
            node: e,
            next: skip_spaces(s, p) + render_term(e).len(),
        }),
    decreases e, 1nat,
{
    lemma_term_parses(e, s, p);
    lemma_skip_spaces(s, p);
    assert(Seq::<Expr>::empty().push(e) =~= seq![e]);
    assert(parse_and_list(s, p, Seq::empty()) == (Parse::Done {
        node: e,
        next: skip_spaces(s, p) + render_term(e).len(),
    }));
}

/// The terms of a conjunction from `from` on are parsed back from their
/// text, behind the terms `before`.
proof fn lemma_and_list_parses(
    terms: Seq<Expr>,
    from: int,
    s: Seq<char>,
    p: int,
    before: Seq<Expr>,
)
    requires
        0 <= from < terms.len(),
        well_formed_from(terms, from),
        0 <= p,
        has_at(s, skip_spaces(s, p), render_list(terms, from, Keyword::And)),
        closes(s, skip_spaces(s, p) + render_list(terms, from, Keyword::And).len()),
    ensures
        parse_and_list(s, p, before) == (Parse::Done {
            node: conjunction_of(before + terms.subrange(from, terms.len() as int)),
            next: skip_spaces(s, p) + render_list(terms, from, Keyword::And).len(),
        }),
    decreases terms, terms.len() - from,
{
    let b = skip_spaces(s, p);
    let list = render_list(terms, from, Keyword::And);
    let end = b + list.len();
    let head = terms[from];
    let rt = render_term(head);
    let all = before.push(head);
    lemma_skip_spaces(s, p);
    if from + 1 < terms.len() {
        let rest = render_list(terms, from + 1, Keyword::And);
        let q = b + rt.len();
        lemma_list_tidy(terms, from + 1, Keyword::And);
        lemma_layout(s, b, rt, Keyword::And, rest);
        lemma_has_at_index(s, q + 5, rest, 0);
        lemma_keyword_between(s, q, Keyword::And);
        lemma_term_parses(head, s, p);
        lemma_and_list_parses(terms, from + 1, s, q + 4, all);
        assert(all + terms.subrange(from + 1, terms.len() as int) =~= before + terms.subrange(
            from,
            terms.len() as int,
        ));
        assert(parse_not(s, p) == (Parse::Done { node: head, next: q }));
        assert(parse_and_list(s, p, before) == parse_and_list(s, q + 4, all));
    } else {
        lemma_closed(s, end, Keyword::And);
        lemma_term_parses(head, s, p);
        assert(all =~= before + terms.subrange(from, terms.len() as int));
        assert(parse_not(s, p) == (Parse::Done { node: head, next: end }));
    }
}

/// The terms of a disjunction from `from` on are parsed back from their
/// text, behind the terms `before`.
proof fn lemma_or_list_parses(
    terms: Seq<Expr>,
    from: int,
    s: Seq<char>,
    p: int,
    before: Seq<Expr>,
)
    requires
        0 <= from < terms.len(),
        well_formed_from(terms, from),
        0 <= p,
        has_at(s, skip_spaces(s, p), render_list(terms, from, Keyword::Or)),
        closes(s, skip_spaces(s, p) + render_list(terms, from, Keyword::Or).len()),
    ensures
        parse_or_list(s, p, before) == (Parse::Done {
            node: disjunction_of(before + terms.subrange(from, terms.len() as int)),
            next: skip_spaces(s, p) + render_list(terms, from, Keyword::Or).len(),
        }),
    decreases terms, terms.len() - from,
{
    let b = skip_spaces(s, p);
    let list = render_list(terms, from, Keyword::Or);
    let end = b + list.len();
    let head = terms[from];
    let rt = render_term(head);
    let all = before.push(head);
    lemma_skip_spaces(s, p);
    if from + 1 < terms.len() {
        let rest = render_list(terms, from + 1, Keyword::Or);
        let q = b + rt.len();
        lemma_list_tidy(terms, from + 1, Keyword::Or);
        lemma_layout(s, b, rt, Keyword::Or, rest);
        lemma_has_at_index(s, q + 4, rest, 0);
        lemma_keyword_between(s, q, Keyword::Or);
        assert(!spells(s, q + 1, q + 3, Keyword::And.text()));
        assert(!word_is(s, q + 1, Keyword::And));
        lemma_single_parses(head, s, p);
        lemma_or_list_parses(terms, from + 1, s, q + 3, all);
        assert(all + terms.subrange(from + 1, terms.len() as int) =~= before + terms.subrange(
            from,
            terms.len() as int,
        ));
        assert(parse_and(s, p) == (Parse::Done { node: head, next: q }));
        assert(parse_or_list(s, p, before) == parse_or_list(s, q + 3, all));
    } else {
        lemma_closed(s, end, Keyword::And);
        lemma_closed(s, end, Keyword::Or);
        lemma_single_parses(head, s, p);
        assert(all =~= before + terms.subrange(from, terms.len() as int));
        assert(parse_and(s, p) == (Parse::Done { node: head, next: end }));
    }
}

/// A conjunction is parsed back from the text of its terms.
proof fn lemma_conjunction_parses(terms: Seq<Expr>, s: Seq<char>, p: int)
    requires
        terms.len() >= 2,
        well_formed_from(terms, 0),
        0 <= p,
        has_at(s, skip_spaces(s, p), render_list(terms, 0, Keyword::And)),
        closes(s, skip_spaces(s, p) + render_list(terms, 0, Keyword::And).len()),
    ensures
        parse_or(s, p) == (Parse::Done {
            node: Expr::And(terms),
            next: skip_spaces(s, p) + render_list(terms, 0, Keyword::And).len(),
        }),
    decreases terms, terms.len() + 1,
{
    let end = skip_spaces(s, p) + render_list(terms, 0, Keyword::And).len();
    lemma_skip_spaces(s, p);
    lemma_and_list_parses(terms, 0, s, p, Seq::empty());
    assert(Seq::<Expr>::empty() + terms.subrange(0, terms.len() as int) =~= terms);
    lemma_closed(s, end, Keyword::Or);
    assert(Seq::<Expr>::empty().push(Expr::And(terms)) =~= seq![Expr::And(terms)]);
    assert(parse_and(s, p) == (Parse::Done { node: Expr::And(terms), next: end }));
    assert(parse_or_list(s, p, Seq::empty()) == (Parse::Done {
        node: Expr::And(terms),
        next: end,
    }));
}

/// A disjunction is parsed back from the text of its terms.
proof fn lemma_disjunction_parses(terms: Seq<Expr>, s: Seq<char>, p: int)
    requires
        terms.len() >= 2,
        well_formed_from(terms, 0),
        0 <= p,
        has_at(s, skip_spaces(s, p), render_list(terms, 0, Keyword::Or)),
        closes(s, skip_spaces(s, p) + render_list(terms, 0, Keyword::Or).len()),
    ensures
        parse_or(s, p) == (Parse::Done {
            node: Expr::Or(terms),
            next: skip_spaces(s, p) + render_list(terms, 0, Keyword::Or).len(),
        }),
    decreases terms, terms.len() + 1,
{
    lemma_or_list_parses(terms, 0, s, p, Seq::empty());
    assert(Seq::<Expr>::empty() + terms.subrange(0, terms.len() as int) =~= terms);
}

/// The canonical text of a well-formed tree, standing at the first
/// character from `p` on that is no whitespace and closed behind its end,
/// is parsed back to the tree.
pub proof fn lemma_rendered_parses(e: Expr, s: Seq<char>, p: int)
    requires
        well_formed(e),
        0 <= p,
        has_at(s, skip_spaces(s, p), render_spec(e)),
        closes(s, skip_spaces(s, p) + render_spec(e).len()),
    ensures
        parse_or(s, p) == (Parse::Done { node: e, next: skip_spaces(s, p) + render_spec(e).len() }),
{
    let end = skip_spaces(s, p) + render_spec(e).len();
    lemma_skip_spaces(s, p);
    match e {
        Expr::And(terms) => lemma_conjunction_parses(terms, s, p),
        Expr::Or(terms) => lemma_disjunction_parses(terms, s, p),
        _ => {
            lemma_closed(s, end, Keyword::And);
            lemma_closed(s, end, Keyword::Or);
            lemma_single_parses(e, s, p);
            assert(Seq::<Expr>::empty().push(e) =~= seq![e]);
            assert(parse_or_list(s, p, Seq::empty()) == (Parse::Done { node: e, next: end }));
        },
    }
}

/// The canonical text of a well-formed tree parses to that tree, and to its
/// end.
pub proof fn lemma_render_then_parse(e: Expr)
    requires
        well_formed(e),
    ensures
        parse_or(render_spec(e), 0) == (Parse::Done { node: e, next: render_spec(e).len() as int }),
{
    let r = render_spec(e);
    lemma_rendered_tidy(e);
    lemma_skip_spaces_to(r, 0, 0);
    assert(r.subrange(0, r.len() as int) =~= r);
    lemma_rendered_parses(e, r, 0);
}

/// Round trip: where a condition compiles to a tree, the canonical text of
/// that tree compiles, against the same declared names, to the same tree.
pub proof fn lemma_round_trip(condition: Seq<char>, declared: Seq<Seq<char>>)
    requires
        compile_spec(condition, declared) is Ok,
    ensures
        compile_spec(render_spec(compile_spec(condition, declared)->Ok_0), declared)
            == compile_spec(condition, declared),
{
    let text = trim(condition);
    let e = compile_spec(condition, declared)->Ok_0;
    lemma_parse_sound(text, 0);
    assert(well_formed(e));
    let r = render_spec(e);
    lemma_rendered_tidy(e);
    lemma_render_then_parse(e);
    lemma_skip_spaces_to(r, 0, 0);
    lemma_skip_spaces_to(r, r.len() as int, r.len() as int);
    assert(trimmed_len(r) == r.len());
    assert(r.subrange(0, r.len() as int) =~= r);
    assert(trim(r) == r);
    assert(!r.contains('|'));
    assert(first_unresolved(e, declared) is None);
}

} // verus!
