//! How much whitespace stands round a condition and between its tokens is
//! insignificant.

use crate::compiler::{compile_spec, CompileFault};
use crate::grammar::{
    conjunction_of, disjunction_of, parse_and, parse_and_list, parse_atom, parse_not, parse_or,
    parse_or_list, parse_quantifier, Parse,
};
use crate::node::Expr;
use crate::soundness::{lemma_and_sound, lemma_not_sound, lemma_or_sound};
use crate::text::{
    is_space, is_word_char, keyword_at, lemma_skip_spaces, lemma_skip_spaces_to,
    lemma_spells_slice, lemma_trimmed_len, lemma_word_end, skip_spaces, spells, trim,
    trimmed_len, word_end, word_is, Keyword,
};
use vstd::prelude::*;

verus! {

/// Every character of the text is whitespace.
pub open spec fn blank(s: Seq<char>) -> bool {
    forall|i: int| 0 <= i < s.len() ==> is_space(#[trigger] s[i])
}

/// Where the text from `to` on is whitespace and the character before `to`
/// is none, the text without its trailing whitespace ends at `to`.
pub proof fn lemma_trimmed_len_to(s: Seq<char>, to: int)
    requires
        0 <= to <= s.len(),
        forall|i: int| to <= i < s.len() ==> is_space(#[trigger] s[i]),
        to == 0 || !is_space(s[to - 1]),
    ensures
        trimmed_len(s) == to,
    decreases s.len(),
{
    if to < s.len() {
        let shorter = s.drop_last();
        assert forall|i: int| to <= i < shorter.len() implies is_space(#[trigger] shorter[i]) by {
            assert(shorter[i] == s[i]);
        }
        if to > 0 {
            assert(shorter[to - 1] == s[to - 1]);
        }
        lemma_trimmed_len_to(shorter, to);
    }
}

/// Whitespace before and behind a text does not change what is left of it
/// after trimming.
pub proof fn lemma_trim_surrounded(before: Seq<char>, s: Seq<char>, after: Seq<char>)
    requires
        blank(before),
        blank(after),
    ensures
        trim(before + s + after) == trim(s),
{
    let whole = before + s + after;
    let from = skip_spaces(s, 0);
    let to = trimmed_len(s);
    lemma_skip_spaces(s, 0);
    lemma_trimmed_len(s);
    assert forall|i: int| 0 <= i < whole.len() implies #[trigger] whole[i] == if i < before.len() {
        before[i]
    } else if i < before.len() + s.len() {
        s[i - before.len()]
    } else {
        after[i - before.len() - s.len()]
    } by {}
    if from < to {
        assert(!is_space(s[from]));
        assert(!is_space(s[to - 1]));
        assert forall|i: int| 0 <= i < before.len() + from implies is_space(
            #[trigger] whole[i],
        ) by {
            if i >= before.len() {
                assert(is_space(s[i - before.len()]));
            }
        }
        lemma_skip_spaces_to(whole, 0, before.len() + from);
        assert forall|i: int| before.len() + to <= i < whole.len() implies is_space(
            #[trigger] whole[i],
        ) by {
            if i < before.len() + s.len() {
                assert(is_space(s[i - before.len()]));
            }
        }
        lemma_trimmed_len_to(whole, before.len() + to);
        assert(whole.subrange(before.len() + from, before.len() + to) =~= s.subrange(from, to));
    } else {
        assert forall|i: int| 0 <= i < s.len() implies is_space(#[trigger] s[i]) by {
            if i < from {
            } else {
                assert(to <= i);
            }
        }
        assert forall|i: int| 0 <= i < whole.len() implies is_space(#[trigger] whole[i]) by {
            if i < before.len() {
            } else if i < before.len() + s.len() {
                assert(is_space(s[i - before.len()]));
            } else {
            }
        }
        lemma_skip_spaces_to(whole, 0, whole.len() as int);
        lemma_trimmed_len_to(whole, 0);
    }
}

/// Trimming a trimmed text changes nothing.
pub proof fn lemma_trim_idempotent(s: Seq<char>)
    ensures
        trim(trim(s)) == trim(s),
{
    let t = trim(s);
    lemma_skip_spaces(s, 0);
    lemma_trimmed_len(s);
    if t.len() > 0 {
        lemma_skip_spaces_to(t, 0, 0);
        lemma_trimmed_len_to(t, t.len() as int);
        assert(t.subrange(0, t.len() as int) =~= t);
    }
}

/// A condition compiles as its trimmed text does.
pub proof fn lemma_trimmed_condition(condition: Seq<char>, declared: Seq<Seq<char>>)
    ensures
        compile_spec(trim(condition), declared) == compile_spec(condition, declared),
{
    lemma_trim_idempotent(condition);
}

/// Whitespace before and behind a condition is insignificant: with it the
/// condition compiles to the same tree, or fails with the same error.
pub proof fn lemma_surrounding_whitespace(
    before: Seq<char>,
    condition: Seq<char>,
    after: Seq<char>,
    declared: Seq<Seq<char>>,
)
    requires
        blank(before),
        blank(after),
    ensures
        compile_spec(before + condition + after, declared) == compile_spec(condition, declared),
{
    lemma_trim_surrounded(before, condition, after);
}

/// The text `s` with the whitespace character `w` put in before position
/// `i`.
#[verifier::opaque]
pub open spec fn widened(s: Seq<char>, i: int, w: char) -> Seq<char> {
    s.subrange(0, i).push(w) + s.subrange(i, s.len() as int)
}

/// Position `i` of `s` holds whitespace, so that more whitespace can be put
/// in there without joining or splitting a token.
pub open spec fn widens(s: Seq<char>, i: int, w: char) -> bool {
    0 <= i < s.len() && is_space(s[i]) && is_space(w)
}

/// Where a position of the text is found in the widened text.
pub open spec fn shifted(i: int, q: int) -> int {
    if q <= i {
        q
    } else {
        q + 1
    }
}

/// The outcome of a parse with its position moved to the widened text.
pub open spec fn lifted(i: int, r: Parse) -> Parse {
    match r {
        Parse::Done { node, next } => Parse::Done { node, next: shifted(i, next) },
        Parse::Failed { position, reason } => Parse::Failed {
            position: shifted(i, position),
            reason,
        },
    }
}

/// The characters of the widened text.
proof fn lemma_widened(s: Seq<char>, i: int, w: char)
    requires
        widens(s, i, w),
    ensures
        widened(s, i, w).len() == s.len() + 1,
        widened(s, i, w)[i] == w,
        forall|q: int| 0 <= q < i ==> widened(s, i, w)[q] == #[trigger] s[q],
        forall|q: int| i <= q < s.len() ==> widened(s, i, w)[q + 1] == #[trigger] s[q],
{
    reveal(widened);
}

/// Skipping whitespace arrives at the same character in the widened text.
proof fn lemma_widened_skip(s: Seq<char>, i: int, w: char, p: int)
    requires
        widens(s, i, w),
        0 <= p <= s.len(),
    ensures
        skip_spaces(widened(s, i, w), shifted(i, p)) == shifted(i, skip_spaces(s, p)),
        skip_spaces(s, p) != i,
    decreases s.len() - p,
{
    let t = widened(s, i, w);
    lemma_widened(s, i, w);
    if p < s.len() && is_space(s[p]) {
        lemma_widened_skip(s, i, w, p + 1);
        if p < i {
            assert(t[p] == s[p]);
        } else if p == i {
            assert(t[i + 1] == s[i]);
            assert(skip_spaces(t, i) == skip_spaces(t, i + 1));
            assert(skip_spaces(t, i + 1) == skip_spaces(t, i + 2));
        } else {
            assert(t[p + 1] == s[p]);
        }
    } else if p < s.len() {
        if p < i {
            assert(t[p] == s[p]);
        } else {
            assert(t[p + 1] == s[p]);
        }
    }
}

/// A word ends at the same character in the widened text.
proof fn lemma_widened_word_end(s: Seq<char>, i: int, w: char, p: int)
    requires
        widens(s, i, w),
        0 <= p <= s.len(),
    ensures
        word_end(widened(s, i, w), shifted(i, p)) == shifted(i, word_end(s, p)),
        p <= i ==> word_end(s, p) <= i,
    decreases s.len() - p,
{
    let t = widened(s, i, w);
    lemma_widened(s, i, w);
    if p < s.len() && is_word_char(s[p]) {
        lemma_widened_word_end(s, i, w, p + 1);
        if p < i {
            assert(t[p] == s[p]);
        } else {
            assert(t[p + 1] == s[p]);
        }
    } else if p < s.len() {
        if p < i {
            assert(t[p] == s[p]);
        } else if p == i {
        } else {
            assert(t[p + 1] == s[p]);
        }
    }
}

/// A word of the text, which holds no whitespace, is the same word in the
/// widened text.
proof fn lemma_widened_word(s: Seq<char>, i: int, w: char, from: int, to: int)
    requires
        widens(s, i, w),
        0 <= from <= to <= s.len(),
        to <= i || from > i,
    ensures
        widened(s, i, w).subrange(shifted(i, from), shifted(i, to)) == s.subrange(from, to),
        forall|word: Seq<char>|
            spells(widened(s, i, w), shifted(i, from), shifted(i, to), word) == #[trigger] spells(
                s,
                from,
                to,
                word,
            ),
{
    let t = widened(s, i, w);
    lemma_widened(s, i, w);
    let a = t.subrange(shifted(i, from), shifted(i, to));
    let b = s.subrange(from, to);
    assert(a =~= b) by {
        assert forall|k: int| 0 <= k < b.len() implies a[k] == b[k] by {
            assert(b[k] == s[from + k]);
        }
    }
    assert forall|word: Seq<char>|
        spells(t, shifted(i, from), shifted(i, to), word) == #[trigger] spells(
            s,
            from,
            to,
            word,
        ) by {
        lemma_spells_slice(t, shifted(i, from), shifted(i, to), word);
        lemma_spells_slice(s, from, to, word);
    }
}

/// What stands at a token's start in the text stands there in the widened
/// text: the same word, the same keyword, the same character.
proof fn lemma_widened_token(s: Seq<char>, i: int, w: char, p: int)
    requires
        widens(s, i, w),
        0 <= p <= s.len(),
    ensures
        ({
            let t = widened(s, i, w);
            let start = skip_spaces(s, p);
            let end = word_end(s, start);
            &&& p <= start <= end <= s.len()
            &&& start != i
            &&& start <= i ==> end <= i
            &&& skip_spaces(t, shifted(i, p)) == shifted(i, start)
            &&& word_end(t, shifted(i, start)) == shifted(i, end)
            &&& t.subrange(shifted(i, start), shifted(i, end)) == s.subrange(start, end)
            &&& start < s.len() ==> t[shifted(i, start)] == s[start]
            &&& shifted(i, start) < t.len() <==> start < s.len()
        }),
{
    let t = widened(s, i, w);
    let start = skip_spaces(s, p);
    let end = word_end(s, start);
    lemma_widened(s, i, w);
    lemma_skip_spaces(s, p);
    lemma_word_end(s, start);
    lemma_widened_skip(s, i, w, p);
    lemma_widened_word_end(s, i, w, start);
    lemma_widened_word(s, i, w, start, end);
    if start < s.len() {
        assert(t[shifted(i, start)] == s[start]);
    }
}

/// The outcome of a parse with its position carried over by `at`.
pub open spec fn moved(at: spec_fn(int) -> int, r: Parse) -> Parse {
    match r {
        Parse::Done { node, next } => Parse::Done { node, next: at(next) },
        Parse::Failed { position, reason } => Parse::Failed { position: at(position), reason },
    }
}

/// The token that starts at or behind position `p` of `s` stands in `t` in
/// the same way, where `at` says where a position of `s` is found in `t`:
/// behind as much whitespace as it takes there, the same word stands, it
/// ends alike, and the character behind it is whitespace in both or in
/// neither.
pub open spec fn same_token_at(s: Seq<char>, t: Seq<char>, at: spec_fn(int) -> int, p: int)
    -> bool {
    let start = skip_spaces(s, p);
    let end = word_end(s, start);
    &&& 0 <= at(p) <= t.len()
    &&& skip_spaces(t, at(p)) == at(start)
    &&& word_end(t, at(start)) == at(end)
    &&& at(end) == at(start) + (end - start)
    &&& t.subrange(at(start), at(end)) == s.subrange(start, end)
    &&& (start < s.len()) == (at(start) < t.len())
    &&& start < s.len() ==> t[at(start)] == s[start] && at(start + 1) == at(start) + 1
    &&& (end < s.len()) == (at(end) < t.len())
    &&& end < s.len() ==> is_space(t[at(end)]) == is_space(s[end])
}

/// The text `t` holds the tokens of `s`, laid out anew: from every position
/// of `s` on, the next token stands in `t` in the same way.
pub open spec fn relaid(s: Seq<char>, t: Seq<char>, at: spec_fn(int) -> int) -> bool {
    forall|p: int| 0 <= p <= s.len() ==> #[trigger] same_token_at(s, t, at, p)
}

/// The word at a token's start is the same keyword in both texts, or in
/// neither.
proof fn lemma_relaid_keyword(
    s: Seq<char>,
    t: Seq<char>,
    at: spec_fn(int) -> int,
    p: int,
    kw: Keyword,
)
    requires
        relaid(s, t, at),
        0 <= p <= s.len(),
    ensures
        word_is(t, at(skip_spaces(s, p)), kw) == word_is(s, skip_spaces(s, p), kw),
        keyword_at(t, at(skip_spaces(s, p)), kw) == keyword_at(s, skip_spaces(s, p), kw),
{
    let start = skip_spaces(s, p);
    let end = word_end(s, start);
    assert(same_token_at(s, t, at, p));
    lemma_skip_spaces(s, p);
    lemma_word_end(s, start);
    lemma_skip_spaces(t, at(p));
    lemma_word_end(t, at(start));
    lemma_spells_slice(s, start, end, kw.text());
    lemma_spells_slice(t, at(start), at(end), kw.text());
}

/// A quantifier's target parses alike in both texts.
proof fn lemma_relaid_quantifier(
    s: Seq<char>,
    t: Seq<char>,
    at: spec_fn(int) -> int,
    p: int,
    all: bool,
)
    requires
        relaid(s, t, at),
        0 <= p <= s.len(),
    ensures
        parse_quantifier(t, at(p), all) == moved(at, parse_quantifier(s, p, all)),
{
    let of = skip_spaces(s, p);
    let of_end = word_end(s, of);
    lemma_skip_spaces(s, p);
    lemma_word_end(s, of);
    assert(same_token_at(s, t, at, p));
    assert(same_token_at(s, t, at, of_end));
    lemma_relaid_keyword(s, t, at, p, Keyword::Of);
    lemma_relaid_keyword(s, t, at, of_end, Keyword::Them);
}

/// An atom parses alike in both texts.
proof fn lemma_relaid_atom(s: Seq<char>, t: Seq<char>, at: spec_fn(int) -> int, p: int)
    requires
        relaid(s, t, at),
        0 <= p <= s.len(),
    ensures
        parse_atom(t, at(p)) == moved(at, parse_atom(s, p)),
    decreases s.len() - p, 0nat,
{
    let start = skip_spaces(s, p);
    let end = word_end(s, start);
    assert(same_token_at(s, t, at, p));
    lemma_skip_spaces(s, p);
    lemma_word_end(s, start);
    lemma_skip_spaces(t, at(p));
    lemma_relaid_keyword(s, t, at, p, Keyword::One);
    lemma_relaid_keyword(s, t, at, p, Keyword::All);
    if start < s.len() && s[start] == '(' {
        lemma_relaid_or(s, t, at, start + 1);
        lemma_or_sound(s, start + 1);
        match parse_or(s, start + 1) {
            Parse::Done { node, next } => {
                assert(same_token_at(s, t, at, next));
                lemma_skip_spaces(s, next);
                lemma_skip_spaces(t, at(next));
                assert(parse_or(t, at(start) + 1) == (Parse::Done { node, next: at(next) }));
            },
            Parse::Failed { position, reason } => {
                assert(parse_or(t, at(start) + 1) == (Parse::Failed {
                    position: at(position),
                    reason,
                }));
            },
        }
    } else if end == start {
    } else if word_is(s, start, Keyword::One) {
        lemma_relaid_quantifier(s, t, at, end, false);
    } else if word_is(s, start, Keyword::All) {
        lemma_relaid_quantifier(s, t, at, end, true);
    } else {
    }
}

/// A negation parses alike in both texts.
proof fn lemma_relaid_not(s: Seq<char>, t: Seq<char>, at: spec_fn(int) -> int, p: int)
    requires
        relaid(s, t, at),
        0 <= p <= s.len(),
    ensures
        parse_not(t, at(p)) == moved(at, parse_not(s, p)),
    decreases s.len() - p, 1nat,
{
    let start = skip_spaces(s, p);
    assert(same_token_at(s, t, at, p));
    lemma_skip_spaces(s, p);
    lemma_word_end(s, start);
    lemma_relaid_keyword(s, t, at, p, Keyword::Not);
    if keyword_at(s, start, Keyword::Not) {
        lemma_relaid_not(s, t, at, start + 3);
        assert(parse_not(t, at(start) + 3) == moved(at, parse_not(s, start + 3)));
    } else {
        lemma_relaid_atom(s, t, at, p);
    }
}

/// A list of negations parses alike in both texts.
proof fn lemma_relaid_and_list(
    s: Seq<char>,
    t: Seq<char>,
    at: spec_fn(int) -> int,
    p: int,
    before: Seq<Expr>,
)
    requires
        relaid(s, t, at),
        0 <= p <= s.len(),
    ensures
        parse_and_list(t, at(p), before) == moved(at, parse_and_list(s, p, before)),
    decreases s.len() - p, 2nat,
{
    let first = parse_not(s, p);
    assert(parse_not(t, at(p)) == moved(at, first)) by {
        lemma_relaid_not(s, t, at, p);
    }
    assert(0 <= at(p) <= t.len()) by {
        assert(same_token_at(s, t, at, p));
    }
    match first {
        Parse::Done { node, next } => {
            let terms = before.push(node);
            let and = skip_spaces(s, next);
            assert(p <= next <= s.len()) by {
                lemma_not_sound(s, p);
            }
            assert(at(p) <= at(next)) by {
                lemma_not_sound(t, at(p));
            }
            assert(next <= and <= s.len() && skip_spaces(t, at(next)) == at(and) && keyword_at(
                t,
                at(and),
                Keyword::And,
            ) == keyword_at(s, and, Keyword::And)) by {
                assert(same_token_at(s, t, at, next));
                lemma_skip_spaces(s, next);
                lemma_relaid_keyword(s, t, at, next, Keyword::And);
            }
            if keyword_at(s, and, Keyword::And) {
                assert(and + 3 <= s.len() && at(and) + 3 == at(and + 3)) by {
                    lemma_word_end(s, and);
                    assert(same_token_at(s, t, at, next));
                }
                lemma_relaid_and_list(s, t, at, and + 3, terms);
                assert(parse_and_list(s, p, before) == parse_and_list(s, and + 3, terms));
                assert(parse_and_list(t, at(p), before) == parse_and_list(t, at(and) + 3, terms));
            } else {
                assert(parse_and_list(s, p, before) == (Parse::Done {
                    node: conjunction_of(terms),
                    next,
                }));
                assert(parse_and_list(t, at(p), before) == (Parse::Done {
                    node: conjunction_of(terms),
                    next: at(next),
                }));
            }
        },
        Parse::Failed { position, reason } => {
            assert(parse_and_list(s, p, before) == first);
            assert(parse_and_list(t, at(p), before) == moved(at, first));
        },
    }
}

/// A conjunction parses alike in both texts.
proof fn lemma_relaid_and(s: Seq<char>, t: Seq<char>, at: spec_fn(int) -> int, p: int)
    requires
        relaid(s, t, at),
        0 <= p <= s.len(),
    ensures
        parse_and(t, at(p)) == moved(at, parse_and(s, p)),
    decreases s.len() - p, 3nat,
{
    lemma_relaid_and_list(s, t, at, p, Seq::empty());
}

/// A list of conjunctions parses alike in both texts.
proof fn lemma_relaid_or_list(
    s: Seq<char>,
    t: Seq<char>,
    at: spec_fn(int) -> int,
    p: int,
    before: Seq<Expr>,
)
    requires
        relaid(s, t, at),
        0 <= p <= s.len(),
    ensures
        parse_or_list(t, at(p), before) == moved(at, parse_or_list(s, p, before)),
    decreases s.len() - p, 4nat,
{
    let first = parse_and(s, p);
    assert(parse_and(t, at(p)) == moved(at, first)) by {
        lemma_relaid_and(s, t, at, p);
    }
    assert(0 <= at(p) <= t.len()) by {
        assert(same_token_at(s, t, at, p));
    }
    match first {
        Parse::Done { node, next } => {
            let terms = before.push(node);
            let or = skip_spaces(s, next);
            assert(p <= next <= s.len()) by {
                lemma_and_sound(s, p);
            }
            assert(at(p) <= at(next)) by {
                lemma_and_sound(t, at(p));
            }
            assert(next <= or <= s.len() && skip_spaces(t, at(next)) == at(or) && keyword_at(
                t,
                at(or),
                Keyword::Or,
            ) == keyword_at(s, or, Keyword::Or)) by {
                assert(same_token_at(s, t, at, next));
                lemma_skip_spaces(s, next);
                lemma_relaid_keyword(s, t, at, next, Keyword::Or);
            }
            if keyword_at(s, or, Keyword::Or) {
                assert(or + 2 <= s.len() && at(or) + 2 == at(or + 2)) by {
                    lemma_word_end(s, or);
                    assert(same_token_at(s, t, at, next));
                }
                lemma_relaid_or_list(s, t, at, or + 2, terms);
                assert(parse_or_list(s, p, before) == parse_or_list(s, or + 2, terms));
                assert(parse_or_list(t, at(p), before) == parse_or_list(t, at(or) + 2, terms));
            } else {
                assert(parse_or_list(s, p, before) == (Parse::Done {
                    node: disjunction_of(terms),
                    next,
                }));
                assert(parse_or_list(t, at(p), before) == (Parse::Done {
                    node: disjunction_of(terms),
                    next: at(next),
                }));
            }
        },
        Parse::Failed { position, reason } => {
            assert(parse_or_list(s, p, before) == first);
            assert(parse_or_list(t, at(p), before) == moved(at, first));
        },
    }
}

/// A disjunction parses alike in both texts.
proof fn lemma_relaid_or(s: Seq<char>, t: Seq<char>, at: spec_fn(int) -> int, p: int)
    requires
        relaid(s, t, at),
        0 <= p <= s.len(),
    ensures
        parse_or(t, at(p)) == moved(at, parse_or(s, p)),
    decreases s.len() - p, 5nat,
{
    lemma_relaid_or_list(s, t, at, p, Seq::empty());
}

/// Where a text holds the tokens of another, laid out anew, the grammar
/// parses both alike: from each position it gives the same tree or fails for
/// the same reason, at the same place.
pub proof fn lemma_relaid_parses(s: Seq<char>, t: Seq<char>, at: spec_fn(int) -> int, p: int)
    requires
        relaid(s, t, at),
        0 <= p <= s.len(),
    ensures
        parse_atom(t, at(p)) == moved(at, parse_atom(s, p)),
        parse_not(t, at(p)) == moved(at, parse_not(s, p)),
        parse_and(t, at(p)) == moved(at, parse_and(s, p)),
        parse_or(t, at(p)) == moved(at, parse_or(s, p)),
{
    lemma_relaid_atom(s, t, at, p);
    lemma_relaid_not(s, t, at, p);
    lemma_relaid_and(s, t, at, p);
    lemma_relaid_or(s, t, at, p);
}

/// Two outcomes of compiling are alike: the same tree, or a failure of the
/// same kind: for the same reason where the grammar did not match, and by
/// the same reference where one is unresolved.
pub open spec fn alike(
    a: Result<Expr, CompileFault>,
    b: Result<Expr, CompileFault>,
) -> bool {
    match (a, b) {
        (Ok(x), Ok(y)) => x == y,
        (
            Err(CompileFault::Syntax(_, reason)),
            Err(CompileFault::Syntax(_, other)),
        ) => reason == other,
        (
            Err(CompileFault::TrailingInput(_)),
            Err(CompileFault::TrailingInput(_)),
        ) => true,
        (Err(x), Err(y)) => x == y,
        _ => false,
    }
}

/// Trimming the widened text gives the trimmed text, itself widened where the
/// whitespace was put in between two of its tokens (at the position given
/// back), and unchanged where it was put in before or behind them.
proof fn lemma_widened_trim(s: Seq<char>, i: int, w: char) -> (j: Option<int>)
    requires
        widens(s, i, w),
    ensures
        match j {
            Some(j) => widens(trim(s), j, w) && trim(widened(s, i, w)) == widened(trim(s), j, w),
            None => trim(widened(s, i, w)) == trim(s),
        },
{
    let t = widened(s, i, w);
    let from = skip_spaces(s, 0);
    let to = trimmed_len(s);
    lemma_widened(s, i, w);
    lemma_skip_spaces(s, 0);
    lemma_trimmed_len(s);
    if from >= to {
        assert forall|q: int| 0 <= q < s.len() implies is_space(#[trigger] s[q]) by {
            if q >= from {
                assert(to <= q);
            }
        }
        assert forall|q: int| 0 <= q < t.len() implies is_space(#[trigger] t[q]) by {
            if q < i {
                assert(t[q] == s[q]);
            } else if q > i {
                assert(t[q - 1 + 1] == s[q - 1]);
            }
        }
        lemma_skip_spaces_to(t, 0, t.len() as int);
        lemma_trimmed_len_to(t, 0);
        None
    } else {
        assert(!is_space(s[from]));
        assert(!is_space(s[to - 1]));
        lemma_widened_skip(s, i, w, 0);
        assert(skip_spaces(t, 0) == shifted(i, from));
        assert forall|q: int| shifted(i, to - 1) + 1 <= q < t.len() implies is_space(
            #[trigger] t[q],
        ) by {
            if q < i {
                assert(t[q] == s[q]);
            } else if q > i {
                assert(t[q - 1 + 1] == s[q - 1]);
            }
        }
        assert(t[shifted(i, to - 1)] == s[to - 1]);
        lemma_trimmed_len_to(t, shifted(i, to - 1) + 1);
        if i < from {
            assert(t.subrange(from + 1, to + 1) =~= s.subrange(from, to)) by {
                assert forall|k: int| 0 <= k < to - from implies t.subrange(from + 1, to + 1)[k]
                    == s.subrange(from, to)[k] by {
                    assert(t[from + k + 1] == s[from + k]);
                }
            }
            None
        } else if i >= to {
            assert(t.subrange(from, to) =~= s.subrange(from, to)) by {
                assert forall|k: int| 0 <= k < to - from implies t.subrange(from, to)[k]
                    == s.subrange(from, to)[k] by {
                    assert(t[from + k] == s[from + k]);
                }
            }
            None
        } else {
            let inner = s.subrange(from, to);
            let j = i - from;
            assert(inner[j] == s[i]);
            assert(t.subrange(from, to + 1) =~= widened(inner, j, w)) by {
                lemma_widened(inner, j, w);
                assert forall|k: int| 0 <= k < to + 1 - from implies t.subrange(from, to + 1)[k]
                    == widened(inner, j, w)[k] by {
                    if k < j {
                        assert(t[from + k] == s[from + k]);
                        assert(widened(inner, j, w)[k] == inner[k]);
                    } else if k > j {
                        assert(t[from + k - 1 + 1] == s[from + k - 1]);
                        assert(widened(inner, j, w)[k - 1 + 1] == inner[k - 1]);
                    }
                }
            }
            Some(j)
        }
    }
}

/// Two trimmed texts of the same tokens, the one laid out as the other from
/// its start on, compile alike.
proof fn lemma_relaid_condition(
    text: Seq<char>,
    wider: Seq<char>,
    at: spec_fn(int) -> int,
    declared: Seq<Seq<char>>,
)
    requires
        relaid(text, wider, at),
        at(0) == 0,
        trim(text) == text,
        trim(wider) == wider,
        (text.len() == 0) == (wider.len() == 0),
        text.contains('|') == wider.contains('|'),
    ensures
        alike(compile_spec(wider, declared), compile_spec(text, declared)),
{
    lemma_relaid_or(text, wider, at, 0);
    lemma_or_sound(text, 0);
    match parse_or(text, 0) {
        Parse::Done { node, next } => {
            assert(same_token_at(text, wider, at, next));
            lemma_skip_spaces(text, next);
        },
        _ => {},
    }
}

/// Where a position of the text is found in the widened text, as a map.
pub open spec fn shift(i: int) -> spec_fn(int) -> int {
    |q: int| shifted(i, q)
}

/// The widened text holds the tokens of the text, laid out anew.
proof fn lemma_widened_relaid(s: Seq<char>, i: int, w: char)
    requires
        widens(s, i, w),
    ensures
        relaid(s, widened(s, i, w), shift(i)),
{
    let t = widened(s, i, w);
    let at = shift(i);
    lemma_widened(s, i, w);
    assert forall|p: int| 0 <= p <= s.len() implies #[trigger] same_token_at(s, t, at, p) by {
        let start = skip_spaces(s, p);
        let end = word_end(s, start);
        lemma_widened_token(s, i, w, p);
        if end < s.len() {
            if end < i {
                assert(t[end] == s[end]);
            } else if end > i {
                assert(t[end + 1] == s[end]);
            }
        }
    }
}

/// More whitespace where there is some already does not change what the
/// grammar parses: from each position it gives the same tree or fails for
/// the same reason, at the same place of the text.
pub proof fn lemma_widened_parses(s: Seq<char>, i: int, w: char, p: int)
    requires
        widens(s, i, w),
        0 <= p <= s.len(),
    ensures
        parse_atom(widened(s, i, w), shifted(i, p)) == lifted(i, parse_atom(s, p)),
        parse_not(widened(s, i, w), shifted(i, p)) == lifted(i, parse_not(s, p)),
        parse_and(widened(s, i, w), shifted(i, p)) == lifted(i, parse_and(s, p)),
        parse_or(widened(s, i, w), shifted(i, p)) == lifted(i, parse_or(s, p)),
{
    lemma_widened_relaid(s, i, w);
    lemma_relaid_parses(s, widened(s, i, w), shift(i), p);
}

/// More whitespace where there is some already is insignificant: with it the
/// condition compiles to the same tree, or fails in the same way. Only the
/// position of a syntax error and the text left behind a parsed condition
/// can differ, by the whitespace put in.
pub proof fn lemma_more_whitespace(
    condition: Seq<char>,
    i: int,
    w: char,
    declared: Seq<Seq<char>>,
)
    requires
        widens(condition, i, w),
    ensures
        alike(
            compile_spec(widened(condition, i, w), declared),
            compile_spec(condition, declared),
        ),
{
    let text = trim(condition);
    let wider = trim(widened(condition, i, w));
    match lemma_widened_trim(condition, i, w) {
        None => {},
        Some(j) => {
            lemma_widened(text, j, w);
            lemma_widened_relaid(text, j, w);
            lemma_trim_idempotent(condition);
            lemma_trim_idempotent(widened(condition, i, w));
            assert(wider.contains('|') == text.contains('|')) by {
                if text.contains('|') {
                    let q = choose|q: int| 0 <= q < text.len() && text[q] == '|';
                    assert(wider[shifted(j, q)] == text[q]);
                }
                if wider.contains('|') {
                    let q = choose|q: int| 0 <= q < wider.len() && wider[q] == '|';
                    if q < j {
                        assert(wider[q] == text[q]);
                    } else if q > j {
                        assert(wider[q - 1 + 1] == text[q - 1]);
                    }
                }
            }
            lemma_relaid_condition(text, wider, shift(j), declared);
        },
    }
}

/// The text `s` with the whitespace character at position `i` replaced by
/// the whitespace character `w`.
#[verifier::opaque]
pub open spec fn retyped(s: Seq<char>, i: int, w: char) -> Seq<char> {
    s.update(i, w)
}

/// Every position of the text is found at the same place in the retyped
/// text.
pub open spec fn same_place() -> spec_fn(int) -> int {
    |q: int| q
}

/// The characters of the retyped text.
proof fn lemma_retyped(s: Seq<char>, i: int, w: char)
    requires
        widens(s, i, w),
    ensures
        retyped(s, i, w).len() == s.len(),
        retyped(s, i, w)[i] == w,
        forall|q: int| 0 <= q < s.len() && q != i ==> retyped(s, i, w)[q] == #[trigger] s[q],
{
    reveal(retyped);
}

/// Skipping whitespace arrives at the same place in the retyped text.
proof fn lemma_retyped_skip(s: Seq<char>, i: int, w: char, p: int)
    requires
        widens(s, i, w),
        0 <= p <= s.len(),
    ensures
        skip_spaces(retyped(s, i, w), p) == skip_spaces(s, p),
        skip_spaces(s, p) != i,
    decreases s.len() - p,
{
    let t = retyped(s, i, w);
    lemma_retyped(s, i, w);
    if p < s.len() {
        if p != i {
            assert(t[p] == s[p]);
        }
        if is_space(s[p]) {
            lemma_retyped_skip(s, i, w, p + 1);
        }
    }
}

/// A word ends at the same place in the retyped text.
proof fn lemma_retyped_word_end(s: Seq<char>, i: int, w: char, p: int)
    requires
        widens(s, i, w),
        0 <= p <= s.len(),
    ensures
        word_end(retyped(s, i, w), p) == word_end(s, p),
        p <= i ==> word_end(s, p) <= i,
    decreases s.len() - p,
{
    let t = retyped(s, i, w);
    lemma_retyped(s, i, w);
    if p < s.len() {
        if p != i {
            assert(t[p] == s[p]);
        }
        if is_word_char(s[p]) {
            lemma_retyped_word_end(s, i, w, p + 1);
        }
    }
}

/// The retyped text holds the tokens of the text, each at its place.
proof fn lemma_retyped_relaid(s: Seq<char>, i: int, w: char)
    requires
        widens(s, i, w),
    ensures
        relaid(s, retyped(s, i, w), same_place()),
{
    let t = retyped(s, i, w);
    let at = same_place();
    lemma_retyped(s, i, w);
    assert forall|p: int| 0 <= p <= s.len() implies #[trigger] same_token_at(s, t, at, p) by {
        let start = skip_spaces(s, p);
        let end = word_end(s, start);
        lemma_skip_spaces(s, p);
        lemma_word_end(s, start);
        lemma_retyped_skip(s, i, w, p);
        lemma_retyped_word_end(s, i, w, start);
        assert(t.subrange(start, end) =~= s.subrange(start, end)) by {
            assert forall|k: int| 0 <= k < end - start implies t.subrange(start, end)[k]
                == s.subrange(start, end)[k] by {
                assert(t[start + k] == s[start + k]);
            }
        }
        if start < s.len() {
            assert(t[start] == s[start]);
        }
        if end < s.len() && end != i {
            assert(t[end] == s[end]);
        }
    }
}

/// Trimming the retyped text gives the trimmed text, itself retyped where the
/// character stands between two of its tokens (at the position given back),
/// and unchanged where it stands before or behind them.
proof fn lemma_retyped_trim(s: Seq<char>, i: int, w: char) -> (j: Option<int>)
    requires
        widens(s, i, w),
    ensures
        match j {
            Some(j) => widens(trim(s), j, w) && trim(retyped(s, i, w)) == retyped(trim(s), j, w),
            None => trim(retyped(s, i, w)) == trim(s),
        },
{
    let t = retyped(s, i, w);
    let from = skip_spaces(s, 0);
    let to = trimmed_len(s);
    lemma_retyped(s, i, w);
    lemma_skip_spaces(s, 0);
    lemma_trimmed_len(s);
    lemma_retyped_skip(s, i, w, 0);
    assert forall|q: int| to <= q < t.len() implies is_space(#[trigger] t[q]) by {
        if q != i {
            assert(t[q] == s[q]);
        }
    }
    if to > 0 {
        assert(t[to - 1] == s[to - 1]);
    }
    lemma_trimmed_len_to(t, to);
    if from < to && from < i < to {
        let inner = s.subrange(from, to);
        let j = i - from;
        assert(inner[j] == s[i]);
        lemma_retyped(inner, j, w);
        assert(t.subrange(from, to) =~= retyped(inner, j, w)) by {
            assert forall|k: int| 0 <= k < to - from implies t.subrange(from, to)[k] == retyped(
                inner,
                j,
                w,
            )[k] by {
                if k != j {
                    assert(t[from + k] == s[from + k]);
                    assert(retyped(inner, j, w)[k] == inner[k]);
                }
            }
        }
        Some(j)
    } else {
        if from < to {
            assert(t.subrange(from, to) =~= s.subrange(from, to)) by {
                assert forall|k: int| 0 <= k < to - from implies t.subrange(from, to)[k]
                    == s.subrange(from, to)[k] by {
                    assert(t[from + k] == s[from + k]);
                }
            }
        }
        None
    }
}

/// Which whitespace character stands at a place is insignificant: with
/// another in its stead the condition compiles to the same tree, or fails in
/// the same way. Only the text left behind a parsed condition can differ, by
/// that character.
pub proof fn lemma_other_whitespace(
    condition: Seq<char>,
    i: int,
    w: char,
    declared: Seq<Seq<char>>,
)
    requires
        widens(condition, i, w),
    ensures
        alike(
            compile_spec(retyped(condition, i, w), declared),
            compile_spec(condition, declared),
        ),
{
    let text = trim(condition);
    let other = trim(retyped(condition, i, w));
    match lemma_retyped_trim(condition, i, w) {
        None => {},
        Some(j) => {
            lemma_retyped(text, j, w);
            lemma_retyped_relaid(text, j, w);
            lemma_trim_idempotent(condition);
            lemma_trim_idempotent(retyped(condition, i, w));
            assert(other.contains('|') == text.contains('|')) by {
                if text.contains('|') {
                    let q = choose|q: int| 0 <= q < text.len() && text[q] == '|';
                    assert(other[q] == text[q]);
                }
                if other.contains('|') {
                    let q = choose|q: int| 0 <= q < other.len() && other[q] == '|';
                    assert(other[q] == text[q]);
                }
            }
            lemma_relaid_condition(text, other, same_place(), declared);
        },
    }
}

/// The text with every run of whitespace made one space.
pub open spec fn squeeze(s: Seq<char>) -> Seq<char>
    decreases s.len(),
{
    if s.len() == 0 {
        s
    } else if !is_space(s[0]) {
        seq![s[0]] + squeeze(s.drop_first())
    } else if s.len() > 1 && is_space(s[1]) {
        squeeze(s.drop_first())
    } else {
        seq![' '] + squeeze(s.drop_first())
    }
}

/// Two texts hold the same tokens, with whitespace between the same ones:
/// they differ at most in how much whitespace, and which, stands in each
/// run between two tokens and at both ends.
pub open spec fn same_tokens(a: Seq<char>, b: Seq<char>) -> bool {
    squeeze(trim(a)) == squeeze(trim(b))
}

/// The first `k` characters of the text as they are, and the rest squeezed.
pub open spec fn squeezed_from(s: Seq<char>, k: int) -> Seq<char> {
    s.take(k) + squeeze(s.skip(k))
}

/// A squeezed text starts with whitespace exactly where the text does.
proof fn lemma_squeeze_head(s: Seq<char>)
    requires
        s.len() > 0,
    ensures
        squeeze(s).len() > 0,
        is_space(squeeze(s)[0]) == is_space(s[0]),
    decreases s.len(),
{
    if is_space(s[0]) && s.len() > 1 && is_space(s[1]) {
        lemma_squeeze_head(s.drop_first());
        assert(s.drop_first()[0] == s[1]);
    }
}

/// To be alike is an equivalence.
pub proof fn lemma_alike(
    a: Result<Expr, CompileFault>,
    b: Result<Expr, CompileFault>,
    c: Result<Expr, CompileFault>,
)
    ensures
        alike(a, a),
        alike(a, b) ==> alike(b, a),
        alike(a, b) && alike(b, c) ==> alike(a, c),
        alike(a, b) ==> (a is Ok <==> b is Ok),
        alike(a, b) && a is Ok ==> a == b,
{
}

/// Squeezing from one character earlier on changes nothing.
proof fn lemma_squeeze_step(s: Seq<char>, k: int, declared: Seq<Seq<char>>)
    requires
        0 <= k < s.len(),
    ensures
        alike(
            compile_spec(squeezed_from(s, k + 1), declared),
            compile_spec(squeezed_from(s, k), declared),
        ),
{
    let tail = s.skip(k);
    let rest = squeeze(s.skip(k + 1));
    let less = squeezed_from(s, k);
    let more = squeezed_from(s, k + 1);
    assert(tail[0] == s[k]);
    assert(tail.drop_first() =~= s.skip(k + 1));
    assert(more =~= s.take(k).push(s[k]) + rest);
    lemma_alike(compile_spec(more, declared), compile_spec(more, declared), compile_spec(
        more,
        declared,
    ));
    if !is_space(s[k]) {
        assert(less =~= more);
    } else if tail.len() > 1 && is_space(tail[1]) {
        assert(tail[1] == s[k + 1]);
        lemma_squeeze_head(s.skip(k + 1));
        assert(s.skip(k + 1)[0] == s[k + 1]);
        assert(less =~= s.take(k) + rest);
        assert(less[k] == rest[0]);
        assert(widened(less, k, s[k]) =~= more) by {
            reveal(widened);
        }
        lemma_more_whitespace(less, k, s[k], declared);
    } else {
        assert(less =~= s.take(k).push(' ') + rest);
        assert(less[k] == ' ');
        assert(retyped(less, k, s[k]) =~= more) by {
            reveal(retyped);
        }
        lemma_other_whitespace(less, k, s[k], declared);
    }
}

/// A text squeezed from any place on compiles as the text does.
proof fn lemma_squeezed_from(s: Seq<char>, k: int, declared: Seq<Seq<char>>)
    requires
        0 <= k <= s.len(),
    ensures
        alike(compile_spec(squeezed_from(s, k), declared), compile_spec(s, declared)),
    decreases s.len() - k,
{
    let here = compile_spec(squeezed_from(s, k), declared);
    let whole = compile_spec(s, declared);
    if k == s.len() {
        assert(s.skip(k) =~= Seq::<char>::empty());
        assert(squeezed_from(s, k) =~= s);
        lemma_alike(whole, whole, whole);
    } else {
        let next = compile_spec(squeezed_from(s, k + 1), declared);
        lemma_squeezed_from(s, k + 1, declared);
        lemma_squeeze_step(s, k, declared);
        lemma_alike(next, here, whole);
        lemma_alike(here, next, whole);
    }
}

/// How long a run of whitespace is, and of which whitespace characters, is
/// insignificant: with every run made one space the condition compiles to
/// the same tree, or fails in the same way.
pub proof fn lemma_squeezed_condition(condition: Seq<char>, declared: Seq<Seq<char>>)
    ensures
        alike(compile_spec(squeeze(condition), declared), compile_spec(condition, declared)),
{
    assert(condition.skip(0) =~= condition);
    assert(squeezed_from(condition, 0) =~= squeeze(condition));
    lemma_squeezed_from(condition, 0, declared);
}

/// Whitespace is insignificant but for where it stands: two conditions of
/// the same tokens, which differ only in the whitespace of the runs between
/// their tokens and at both ends, compile alike. The one compiles exactly
/// when the other does, and then to the same tree; where they fail, they
/// fail in the same way.
pub proof fn lemma_whitespace_runs(a: Seq<char>, b: Seq<char>, declared: Seq<Seq<char>>)
    requires
        same_tokens(a, b),
    ensures
        alike(compile_spec(a, declared), compile_spec(b, declared)),
        compile_spec(a, declared) is Ok <==> compile_spec(b, declared) is Ok,
        compile_spec(a, declared) is Ok ==> compile_spec(a, declared) == compile_spec(
            b,
            declared,
        ),
{
    let left = compile_spec(a, declared);
    let right = compile_spec(b, declared);
    let middle = compile_spec(squeeze(trim(a)), declared);
    lemma_trimmed_condition(a, declared);
    lemma_trimmed_condition(b, declared);
    lemma_squeezed_condition(trim(a), declared);
    lemma_squeezed_condition(trim(b), declared);
    lemma_alike(middle, left, right);
    lemma_alike(left, middle, right);
    lemma_alike(left, right, right);
}

} // verus!
