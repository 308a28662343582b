//! The parser of a search identifier: the first word of the input.

use crate::detection::{record, Condition};
use crate::grammar::SyntaxReason;
use crate::node::{ConditionNode, Expr};
use crate::parser::{Input, SyntaxError};
use crate::text::{is_name, is_reserved, is_word_char, lemma_word_end, trim, word_end};
use vstd::prelude::*;
use vstd::string::*;

verus! {

/// The first word of the trimmed input: its characters up to the first
/// whitespace, parenthesis or pipe. It is empty where the trimmed input is
/// empty or starts with a parenthesis or a pipe.
pub open spec fn first_word(input: Seq<char>) -> Seq<char> {
    let text = trim(input);
    text.subrange(0, word_end(text, 0))
}

/// What of the trimmed input stands behind its first word.
pub open spec fn behind_first_word(input: Seq<char>) -> Seq<char> {
    let text = trim(input);
    text.subrange(word_end(text, 0), text.len() as int)
}

/// The pieces joined into one text, with one space between each two.
pub open spec fn joined(pieces: Seq<Seq<char>>) -> Seq<char>
    decreases pieces.len(),
{
    if pieces.len() == 0 {
        Seq::empty()
    } else if pieces.len() == 1 {
        pieces[0]
    } else {
        joined(pieces.drop_last()) + seq![' '] + pieces.last()
    }
}

/// The first word of the trimmed input is taken as a search identifier
/// exactly where it can be a name: it is not empty and spells no reserved
/// word. (It holds word characters only, being a word.)
pub proof fn lemma_first_word(input: Seq<char>)
    ensures
        is_name(first_word(input)) <==> first_word(input).len() > 0 && !is_reserved(
            first_word(input),
        ),
        first_word(input) + behind_first_word(input) == trim(input),
        behind_first_word(input).len() > 0 ==> !is_word_char(behind_first_word(input)[0]),
{
    let text = trim(input);
    let end = word_end(text, 0);
    lemma_word_end(text, 0);
    let word = first_word(input);
    assert forall|i: int| 0 <= i < word.len() implies is_word_char(#[trigger] word[i]) by {
        assert(word[i] == text[i]);
    }
    assert(first_word(input) + behind_first_word(input) =~= text);
    if behind_first_word(input).len() > 0 {
        assert(behind_first_word(input)[0] == text[end]);
    }
}

/// Splits the trimmed input behind its first word, a search identifier:
/// gives what is left, then the word.
///
/// The parser fails at position 0 where the first word cannot be a name:
/// with `ExpectedTerm` where it is empty (the trimmed input is empty or
/// starts with a parenthesis or a pipe), and with `ReservedWord` where it
/// spells a keyword.
pub fn search_identifiers<'a>(input: &'a str) -> (r: Result<(&'a str, &'a str), SyntaxError>)
    ensures
        match r {
            Ok((rest, word)) => is_name(first_word(input@)) && word@ == first_word(input@)
                && rest@ == behind_first_word(input@),
            Err(e) => !is_name(first_word(input@)) && e == (SyntaxError {
                position: 0,
                reason: if first_word(input@).len() == 0 {
                    SyntaxReason::ExpectedTerm
                } else {
                    SyntaxReason::ReservedWord
                },
            }),
        },
{
    proof {
        lemma_first_word(input@);
    }
    let text = Input::trimmed(input);
    let end = text.word_end(0);
    if end == 0 {
        Err(SyntaxError { position: 0, reason: SyntaxReason::ExpectedTerm })
    } else if text.is_reserved(0, end) {
        Err(SyntaxError { position: 0, reason: SyntaxReason::ReservedWord })
    } else {
        Ok((text.slice(end, text.len()), text.slice(0, end)))
    }
}

/// Takes the first word of the trimmed input as a search identifier: gives
/// what is left, then the record of the identifier.
///
/// The parser fails where `search_identifiers` fails, and in the same way.
pub fn search_identifiers_parser<'a>(input: &'a str) -> (r: Result<
    (&'a str, Condition),
    SyntaxError,
>)
    ensures
        match r {
            Ok((rest, condition)) => is_name(first_word(input@)) && rest@ == behind_first_word(
                input@,
            ) && condition@ == record(Expr::Identifier(first_word(input@)), None),
            Err(e) => !is_name(first_word(input@)) && e == (SyntaxError {
                position: 0,
                reason: if first_word(input@).len() == 0 {
                    SyntaxReason::ExpectedTerm
                } else {
                    SyntaxReason::ReservedWord
                },
            }),
        },
{
    match search_identifiers(input) {
        Ok((rest, word)) => {
            let identifier = ConditionNode::Identifier(word.to_owned());
            Ok((rest, Condition::from_term(&identifier, None)))
        },
        Err(e) => Err(e),
    }
}

/// The pieces of a parser's result joined into one text, with one space
/// between each two. There must be pieces.
pub fn parser_str_builder(input: Option<Vec<String>>) -> (r: String)
    requires
        input is Some,
    ensures
        r@ == joined(input->0.deep_view()),
{
    let pieces = input.unwrap();
    let ghost texts = pieces.deep_view();
    let mut out = String::new();
    let mut i: usize = 0;
    proof {
        reveal_strlit(" ");
        assert(texts.take(0) =~= Seq::empty());
    }
    assert(" "@ =~= seq![' ']);
    while i < pieces.len()
        invariant
            i <= pieces.len(),
            texts == pieces.deep_view(),
            " "@ == seq![' '],
            out@ == joined(texts.take(i as int)),
        decreases pieces.len() - i,
    {
        let ghost before = out@;
        proof {
            assert(texts.take(i as int + 1).drop_last() =~= texts.take(i as int));
            assert(texts.take(i as int + 1).last() == pieces[i as int]@);
        }
        if i > 0 {
            out.append(" ");
        }
        out.append(pieces[i].as_str());
        assert(out@ =~= joined(texts.take(i as int + 1))) by {
            if i == 0 {
                assert(before =~= Seq::<char>::empty());
            }
        }
        i = i + 1;
    }
    assert(texts.take(i as int) =~= texts);
    out
}

} // verus!
