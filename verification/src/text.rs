//! Characters, words and keywords of the condition language.

use vstd::prelude::*;

verus! {

/// Whitespace of the condition language: the ASCII whitespace characters.
pub open spec fn is_space(c: char) -> bool {
    c == ' ' || c == '\t' || c == '\n' || c == '\r' || c == '\x0C'
}

/// A character that can stand in a name: anything but whitespace, the two
/// parentheses and the pipe.
pub open spec fn is_word_char(c: char) -> bool {
    !is_space(c) && c != '(' && c != ')' && c != '|'
}

/// The first position at or after `p` that holds no whitespace.
pub open spec fn skip_spaces(s: Seq<char>, p: int) -> int
    decreases s.len() - p,
{
    if 0 <= p < s.len() && is_space(s[p]) {
        skip_spaces(s, p + 1)
    } else {
        p
    }
}

/// The end of the maximal run of word characters that starts at `p`.
pub open spec fn word_end(s: Seq<char>, p: int) -> int
    decreases s.len() - p,
{
    if 0 <= p < s.len() && is_word_char(s[p]) {
        word_end(s, p + 1)
    } else {
        p
    }
}

/// The length of `s` without its trailing whitespace.
pub open spec fn trimmed_len(s: Seq<char>) -> int
    decreases s.len(),
{
    if s.len() > 0 && is_space(s.last()) {
        trimmed_len(s.drop_last())
    } else {
        s.len() as int
    }
}

/// `s` without its leading and trailing whitespace.
pub open spec fn trim(s: Seq<char>) -> Seq<char> {
    let from = skip_spaces(s, 0);
    let to = trimmed_len(s);
    if from < to {
        s.subrange(from, to)
    } else {
        Seq::empty()
    }
}

/// ASCII upper-case letters fold to lower case; every other character is kept.
pub open spec fn fold_case(c: char) -> char {
    if 'A' <= c && c <= 'Z' {
        ((c as u8) + 32) as char
    } else {
        c
    }
}

/// The reserved words of the condition language.
#[derive(Clone, Copy, Debug, PartialEq, Eq)]
pub enum Keyword {
    And,
    Or,
    Not,
    Of,
    Them,
    One,
    All,
}

impl Keyword {
    /// The keyword's spelling, in lower case.
    pub open spec fn text(self) -> Seq<char> {
        match self {
            Keyword::And => seq!['a', 'n', 'd'],
            Keyword::Or => seq!['o', 'r'],
            Keyword::Not => seq!['n', 'o', 't'],
            Keyword::Of => seq!['o', 'f'],
            Keyword::Them => seq!['t', 'h', 'e', 'm'],
            Keyword::One => seq!['1'],
            Keyword::All => seq!['a', 'l', 'l'],
        }
    }

    /// The keyword's spelling, in lower case.
    pub fn as_str(&self) -> (r: &'static str)
        ensures
            r@ == self.text(),
    {
        proof {
            reveal_strlit("and");
            reveal_strlit("or");
            reveal_strlit("not");
            reveal_strlit("of");
            reveal_strlit("them");
            reveal_strlit("1");
            reveal_strlit("all");
        }
        match self {
            Keyword::And => {
                assert("and"@ =~= Keyword::And.text());
                "and"
            },
            Keyword::Or => {
                assert("or"@ =~= Keyword::Or.text());
                "or"
            },
            Keyword::Not => {
                assert("not"@ =~= Keyword::Not.text());
                "not"
            },
            Keyword::Of => {
                assert("of"@ =~= Keyword::Of.text());
                "of"
            },
            Keyword::Them => {
                assert("them"@ =~= Keyword::Them.text());
                "them"
            },
            Keyword::One => {
                assert("1"@ =~= Keyword::One.text());
                "1"
            },
            Keyword::All => {
                assert("all"@ =~= Keyword::All.text());
                "all"
            },
        }
    }
}

/// The characters of `s` from `from` up to `to` spell the lower-case word
/// `word`, whatever the case of their letters.
pub open spec fn spells(s: Seq<char>, from: int, to: int, word: Seq<char>) -> bool {
    &&& 0 <= from
    &&& to <= s.len()
    &&& to - from == word.len()
    &&& forall|i: int| 0 <= i < word.len() ==> fold_case(s[from + i]) == #[trigger] word[i]
}

/// The word that starts at `p` is the keyword `kw`.
pub open spec fn word_is(s: Seq<char>, p: int, kw: Keyword) -> bool {
    spells(s, p, word_end(s, p), kw.text())
}

/// The keyword `kw` stands at `p` as an operator: the word there spells it and
/// is followed by whitespace or by the end of the input.
pub open spec fn keyword_at(s: Seq<char>, p: int, kw: Keyword) -> bool {
    &&& word_is(s, p, kw)
    &&& (word_end(s, p) == s.len() || is_space(s[word_end(s, p)]))
}

/// `w` spells one of the reserved words.
pub open spec fn is_reserved(w: Seq<char>) -> bool {
    ||| spells(w, 0, w.len() as int, Keyword::And.text())
    ||| spells(w, 0, w.len() as int, Keyword::Or.text())
    ||| spells(w, 0, w.len() as int, Keyword::Not.text())
    ||| spells(w, 0, w.len() as int, Keyword::Of.text())
    ||| spells(w, 0, w.len() as int, Keyword::Them.text())
    ||| spells(w, 0, w.len() as int, Keyword::One.text())
    ||| spells(w, 0, w.len() as int, Keyword::All.text())
}

/// `w` can name a search block or be a pattern: a non-empty run of word
/// characters that spells no reserved word.
pub open spec fn is_name(w: Seq<char>) -> bool {
    &&& w.len() > 0
    &&& forall|i: int| 0 <= i < w.len() ==> is_word_char(#[trigger] w[i])
    &&& !is_reserved(w)
}

/// `skip_spaces` moves forward over whitespace only and stops at the first
/// character that is none, or at the end.
pub proof fn lemma_skip_spaces(s: Seq<char>, p: int)
    ensures
        p <= skip_spaces(s, p),
        0 <= p <= s.len() ==> skip_spaces(s, p) <= s.len(),
        !(0 <= p <= s.len()) ==> skip_spaces(s, p) == p,
        forall|i: int| p <= i < skip_spaces(s, p) ==> is_space(#[trigger] s[i]),
        0 <= skip_spaces(s, p) < s.len() ==> !is_space(s[skip_spaces(s, p)]),
        skip_spaces(s, skip_spaces(s, p)) == skip_spaces(s, p),
    decreases s.len() - p,
{
    if 0 <= p < s.len() && is_space(s[p]) {
        lemma_skip_spaces(s, p + 1);
    }
}

/// `word_end` moves forward over word characters only and stops at the first
/// character that is none, or at the end.
pub proof fn lemma_word_end(s: Seq<char>, p: int)
    ensures
        p <= word_end(s, p),
        0 <= p <= s.len() ==> word_end(s, p) <= s.len(),
        !(0 <= p <= s.len()) ==> word_end(s, p) == p,
        forall|i: int| p <= i < word_end(s, p) ==> is_word_char(#[trigger] s[i]),
        0 <= word_end(s, p) < s.len() ==> !is_word_char(s[word_end(s, p)]),
    decreases s.len() - p,
{
    if 0 <= p < s.len() && is_word_char(s[p]) {
        lemma_word_end(s, p + 1);
    }
}

/// The run of characters from `p` to `q` is all whitespace and stops at `q`:
/// then `skip_spaces` from `p` arrives at `q`.
pub proof fn lemma_skip_spaces_to(s: Seq<char>, p: int, q: int)
    requires
        0 <= p <= q <= s.len(),
        forall|i: int| p <= i < q ==> is_space(#[trigger] s[i]),
        q == s.len() || !is_space(s[q]),
    ensures
        skip_spaces(s, p) == q,
    decreases q - p,
{
    if p < q {
        lemma_skip_spaces_to(s, p + 1, q);
    }
}

/// The run of characters from `p` to `q` is all word characters and stops at
/// `q`: then `word_end` from `p` arrives at `q`.
pub proof fn lemma_word_end_to(s: Seq<char>, p: int, q: int)
    requires
        0 <= p <= q <= s.len(),
        forall|i: int| p <= i < q ==> is_word_char(#[trigger] s[i]),
        q == s.len() || !is_word_char(s[q]),
    ensures
        word_end(s, p) == q,
    decreases q - p,
{
    if p < q {
        lemma_word_end_to(s, p + 1, q);
    }
}

/// `trimmed_len` cuts whitespace only, and what is left does not end in any.
pub proof fn lemma_trimmed_len(s: Seq<char>)
    ensures
        0 <= trimmed_len(s) <= s.len(),
        forall|i: int| trimmed_len(s) <= i < s.len() ==> is_space(#[trigger] s[i]),
        trimmed_len(s) > 0 ==> !is_space(s[trimmed_len(s) - 1]),
    decreases s.len(),
{
    if s.len() > 0 && is_space(s.last()) {
        lemma_trimmed_len(s.drop_last());
        assert forall|i: int| trimmed_len(s) <= i < s.len() implies is_space(#[trigger] s[i]) by {
            if i < s.len() - 1 {
                assert(s.drop_last()[i] == s[i]);
            }
        }
    }
}

/// A slice spells a word exactly when the input spells it at the slice's
/// place.
pub proof fn lemma_spells_slice(s: Seq<char>, from: int, to: int, word: Seq<char>)
    requires
        0 <= from <= to <= s.len(),
    ensures
        spells(s.subrange(from, to), 0, to - from, word) == spells(s, from, to, word),
{
    let w = s.subrange(from, to);
    if spells(s, from, to, word) {
        assert forall|i: int| 0 <= i < word.len() implies fold_case(w[0 + i])
            == #[trigger] word[i] by {
            assert(w[0 + i] == s[from + i]);
        }
    }
    if spells(w, 0, to - from, word) {
        assert forall|i: int| 0 <= i < word.len() implies fold_case(s[from + i])
            == #[trigger] word[i] by {
            assert(w[0 + i] == s[from + i]);
        }
    }
}

/// The text `t` stands in `s` at `p`.
pub open spec fn has_at(s: Seq<char>, p: int, t: Seq<char>) -> bool {
    &&& 0 <= p
    &&& p + t.len() <= s.len()
    &&& s.subrange(p, p + t.len()) == t
}

/// A word that ends at `q` ends there for good: `q` is the end of the input
/// or holds no word character.
pub open spec fn stops(s: Seq<char>, q: int) -> bool {
    q == s.len() || (0 <= q < s.len() && !is_word_char(s[q]))
}

/// An expression that ends at `q` is closed there: `q` is the end of the
/// input or holds a closing parenthesis.
pub open spec fn closes(s: Seq<char>, q: int) -> bool {
    q == s.len() || (0 <= q < s.len() && s[q] == ')')
}

/// A text that stands at `p` gives the characters there.
pub proof fn lemma_has_at_index(s: Seq<char>, p: int, t: Seq<char>, i: int)
    requires
        has_at(s, p, t),
        0 <= i < t.len(),
    ensures
        s[p + i] == t[i],
{
    assert(s.subrange(p, p + t.len())[i] == s[p + i]);
}

/// Where two texts stand one behind the other, the first stands at `p` and
/// the second behind it.
pub proof fn lemma_has_at_split(s: Seq<char>, p: int, a: Seq<char>, b: Seq<char>)
    requires
        has_at(s, p, a + b),
    ensures
        has_at(s, p, a),
        has_at(s, p + a.len(), b),
{
    let ab = a + b;
    let whole = s.subrange(p, p + ab.len());
    assert(s.subrange(p, p + a.len()) =~= a) by {
        assert forall|i: int| 0 <= i < a.len() implies s.subrange(p, p + a.len())[i] == a[i] by {
            assert(whole[i] == s[p + i]);
            assert(ab[i] == a[i]);
        }
    }
    assert(s.subrange(p + a.len(), p + a.len() + b.len()) =~= b) by {
        assert forall|i: int| 0 <= i < b.len() implies s.subrange(
            p + a.len(),
            p + a.len() + b.len(),
        )[i] == b[i] by {
            assert(whole[a.len() + i] == s[p + a.len() + i]);
            assert(ab[a.len() + i] == b[i]);
        }
    }
}

/// The letters of a keyword are word characters in lower case.
pub proof fn lemma_keyword_text(kw: Keyword)
    ensures
        1 <= kw.text().len() <= 4,
        forall|i: int|
            0 <= i < kw.text().len() ==> is_word_char(#[trigger] kw.text()[i]) && fold_case(
                kw.text()[i],
            ) == kw.text()[i],
{
    let t = kw.text();
    assert forall|i: int| 0 <= i < t.len() implies is_word_char(#[trigger] t[i]) && fold_case(t[i])
        == t[i] by {
        if i == 0 {
        } else if i == 1 {
        } else if i == 2 {
        } else {
        }
    }
}

/// Where a keyword's text stands at `b` and the word ends behind it, the word
/// at `b` is that keyword and no other.
pub proof fn lemma_keyword_here(s: Seq<char>, b: int, kw: Keyword)
    requires
        has_at(s, b, kw.text()),
        stops(s, b + kw.text().len()),
    ensures
        word_end(s, b) == b + kw.text().len(),
        word_is(s, b, kw),
        forall|other: Keyword| other != kw ==> !word_is(s, b, other),
{
    let t = kw.text();
    let e = b + t.len();
    lemma_keyword_text(kw);
    assert forall|i: int| b <= i < e implies is_word_char(#[trigger] s[i]) by {
        lemma_has_at_index(s, b, t, i - b);
    }
    lemma_word_end_to(s, b, e);
    assert forall|i: int| 0 <= i < t.len() implies fold_case(s[b + i]) == #[trigger] t[i] by {
        lemma_has_at_index(s, b, t, i);
    }
    assert forall|other: Keyword| other != kw implies !word_is(s, b, other) by {
        let o = other.text();
        if word_is(s, b, other) {
            assert(o.len() == t.len());
            assert(fold_case(s[b + 0]) == o[0]);
            assert(fold_case(s[b + 0]) == t[0]);
            if t.len() > 1 {
                assert(fold_case(s[b + 1]) == o[1]);
                assert(fold_case(s[b + 1]) == t[1]);
            }
        }
    }
}

/// Where a name stands at `b` and the word ends behind it, the word at `b`
/// is that name, and it is no keyword.
pub proof fn lemma_name_here(s: Seq<char>, b: int, w: Seq<char>)
    requires
        has_at(s, b, w),
        is_name(w),
        stops(s, b + w.len()),
    ensures
        word_end(s, b) == b + w.len(),
        s.subrange(b, b + w.len()) == w,
        is_word_char(s[b]),
        forall|kw: Keyword| !word_is(s, b, kw),
{
    let e = b + w.len();
    assert forall|i: int| b <= i < e implies is_word_char(#[trigger] s[i]) by {
        lemma_has_at_index(s, b, w, i - b);
    }
    lemma_word_end_to(s, b, e);
    lemma_has_at_index(s, b, w, 0);
    assert forall|kw: Keyword| !word_is(s, b, kw) by {
        lemma_spells_slice(s, b, e, kw.text());
    }
}

/// Whether the character is whitespace.
pub fn char_is_space(c: char) -> (r: bool)
    ensures
        r == is_space(c),
{
    c == ' ' || c == '\t' || c == '\n' || c == '\r' || c == '\x0C'
}

/// Whether the character can stand in a name.
pub fn char_is_word(c: char) -> (r: bool)
    ensures
        r == is_word_char(c),
{
    !char_is_space(c) && c != '(' && c != ')' && c != '|'
}

/// The character in lower case, if it is an ASCII upper-case letter, else
/// itself.
pub fn char_fold_case(c: char) -> (r: char)
    ensures
        r == fold_case(c),
{
    if 'A' <= c && c <= 'Z' {
        ((c as u8) + 32) as char
    } else {
        c
    }
}

/// The characters of a string, in order.
pub fn to_chars(s: &str) -> (v: Vec<char>)
    ensures
        v@ == s@,
{
    let mut v: Vec<char> = Vec::new();
    for c in it: s.chars()
        invariant
            it.seq() == s@,
            v@ == s@.take(it.index()),
    {
        assert(s@.take(it.index()).push(c) =~= s@.take(it.index() + 1));
        v.push(c);
    }
    assert(s@.take(s@.len() as int) =~= s@);
    v
}

/// The first position at or after `p` that holds no whitespace.
pub fn skip_spaces_at(chars: &Vec<char>, p: usize) -> (q: usize)
    requires
        p <= chars.len(),
    ensures
        q == skip_spaces(chars@, p as int),
        p <= q <= chars.len(),
{
    let mut q: usize = p;
    while q < chars.len() && char_is_space(chars[q])
        invariant
            p <= q <= chars.len(),
            skip_spaces(chars@, p as int) == skip_spaces(chars@, q as int),
        decreases chars.len() - q,
    {
        q = q + 1;
    }
    q
}

/// The end of the word that starts at `p`.
pub fn word_end_at(chars: &Vec<char>, p: usize) -> (q: usize)
    requires
        p <= chars.len(),
    ensures
        q == word_end(chars@, p as int),
        p <= q <= chars.len(),
{
    let mut q: usize = p;
    while q < chars.len() && char_is_word(chars[q])
        invariant
            p <= q <= chars.len(),
            word_end(chars@, p as int) == word_end(chars@, q as int),
        decreases chars.len() - q,
    {
        q = q + 1;
    }
    q
}

/// The length of the input without its trailing whitespace.
pub fn trimmed_len_of(chars: &Vec<char>) -> (n: usize)
    ensures
        n == trimmed_len(chars@),
        n <= chars.len(),
{
    let mut n: usize = chars.len();
    assert(chars@.take(n as int) =~= chars@);
    while n > 0 && char_is_space(chars[n - 1])
        invariant
            n <= chars.len(),
            trimmed_len(chars@) == trimmed_len(chars@.take(n as int)),
        decreases n,
    {
        assert(chars@.take(n as int).drop_last() =~= chars@.take(n as int - 1));
        n = n - 1;
    }
    proof {
        lemma_trimmed_len(chars@.take(n as int));
    }
    n
}

/// Whether the characters from `from` up to `to` spell the keyword `kw`.
pub fn spells_keyword(chars: &Vec<char>, from: usize, to: usize, kw: Keyword) -> (r: bool)
    requires
        from <= to <= chars.len(),
    ensures
        r == spells(chars@, from as int, to as int, kw.text()),
{
    let word = kw.as_str();
    let n = word.unicode_len();
    if to - from != n {
        return false;
    }
    let mut i: usize = 0;
    while i < n
        invariant
            i <= n,
            n == word@.len(),
            word@ == kw.text(),
            to - from == n,
            to <= chars.len(),
            forall|j: int| 0 <= j < i ==> fold_case(chars@[from + j]) == #[trigger] word@[j],
        decreases n - i,
    {
        if char_fold_case(chars[from + i]) != word.get_char(i) {
            return false;
        }
        i = i + 1;
    }
    true
}

} // verus!
