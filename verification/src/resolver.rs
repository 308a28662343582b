//! Resolution of a name or wildcard pattern against the declared search
//! blocks.

use crate::text::to_chars;
use vstd::prelude::*;

verus! {

/// Whether the declared name `name` is one that `pattern` stands for.
///
/// A pattern without `*` stands for itself. A pattern whose only `*` is its
/// last character stands for every name that starts with what precedes the
/// `*`. A pattern with a `*` anywhere else stands for nothing.
pub open spec fn pattern_matches(pattern: Seq<char>, name: Seq<char>) -> bool {
    if !pattern.contains('*') {
        name == pattern
    } else if pattern.last() == '*' && !pattern.drop_last().contains('*') {
        pattern.drop_last().is_prefix_of(name)
    } else {
        false
    }
}

/// `pattern_matches` with the pattern fixed, as a predicate on names.
pub open spec fn matcher(pattern: Seq<char>) -> spec_fn(Seq<char>) -> bool {
    |name: Seq<char>| pattern_matches(pattern, name)
}

/// The declared names that `pattern` stands for, in the order of their
/// declaration.
pub open spec fn resolve_spec(pattern: Seq<char>, declared: Seq<Seq<char>>) -> Seq<Seq<char>> {
    declared.filter(matcher(pattern))
}

/// A name is among the resolved ones exactly when it is declared and the
/// pattern stands for it.
pub proof fn lemma_resolve_contains(pattern: Seq<char>, declared: Seq<Seq<char>>, name: Seq<char>)
    ensures
        resolve_spec(pattern, declared).contains(name) <==> declared.contains(name)
            && pattern_matches(pattern, name),
{
    let pred = matcher(pattern);
    let found = declared.filter(pred);
    if found.contains(name) {
        let i = choose|i: int| 0 <= i < found.len() && found[i] == name;
        declared.lemma_filter_pred(pred, i);
        declared.lemma_filter_contains_rev(pred, name);
    }
    if declared.contains(name) && pattern_matches(pattern, name) {
        let i = choose|i: int| 0 <= i < declared.len() && declared[i] == name;
        assert(pred(declared[i]));
        declared.lemma_filter_contains(pred, i);
    }
}

/// Whether two character vectors hold the same characters.
fn same_chars(a: &Vec<char>, b: &Vec<char>) -> (r: bool)
    ensures
        r == (a@ == b@),
{
    if a.len() != b.len() {
        return false;
    }
    let mut i: usize = 0;
    while i < a.len()
        invariant
            i <= a.len(),
            a.len() == b.len(),
            forall|j: int| 0 <= j < i ==> a@[j] == b@[j],
        decreases a.len() - i,
    {
        if a[i] != b[i] {
            return false;
        }
        i = i + 1;
    }
    assert(a@ =~= b@);
    true
}

/// Whether `pattern` stands for `name`, both given by their characters.
pub fn matches_chars(pattern: &Vec<char>, name: &Vec<char>) -> (r: bool)
    ensures
        r == pattern_matches(pattern@, name@),
{
    let n = pattern.len();
    let mut star: usize = 0;
    while star < n && pattern[star] != '*'
        invariant
            star <= n == pattern.len(),
            forall|j: int| 0 <= j < star ==> pattern@[j] != '*',
        decreases n - star,
    {
        star = star + 1;
    }
    if star == n {
        return same_chars(pattern, name);
    }
    assert(pattern@.contains('*'));
    if star != n - 1 {
        assert(pattern@.drop_last()[star as int] == '*');
        assert(pattern@.drop_last().contains('*'));
        return false;
    }
    let ghost prefix = pattern@.drop_last();
    assert(!prefix.contains('*')) by {
        if prefix.contains('*') {
            let j = choose|j: int| 0 <= j < prefix.len() && prefix[j] == '*';
            assert(pattern@[j] == '*');
        }
    }
    if name.len() < n - 1 {
        return false;
    }
    let mut i: usize = 0;
    while i < n - 1
        invariant
            i <= n - 1,
            n == pattern.len(),
            n - 1 <= name.len(),
            prefix == pattern@.drop_last(),
            forall|j: int| 0 <= j < i ==> name@[j] == pattern@[j],
        decreases n - 1 - i,
    {
        if name[i] != pattern[i] {
            assert(prefix[i as int] != name@.subrange(0, prefix.len() as int)[i as int]);
            return false;
        }
        i = i + 1;
    }
    assert(prefix =~= name@.subrange(0, prefix.len() as int));
    true
}

/// Whether `pattern` stands for the declared name `name`.
pub fn matches_pattern(pattern: &str, name: &str) -> (r: bool)
    ensures
        r == pattern_matches(pattern@, name@),
{
    let p = to_chars(pattern);
    let n = to_chars(name);
    matches_chars(&p, &n)
}

/// The declared names that `pattern` stands for, in the order of their
/// declaration. An empty result is no error here.
pub fn resolve(pattern: &str, declared: &Vec<String>) -> (r: Vec<String>)
    ensures
        r.deep_view() == resolve_spec(pattern@, declared.deep_view()),
{
    let p = to_chars(pattern);
    let mut out: Vec<String> = Vec::new();
    let ghost names = declared.deep_view();
    let ghost pred = matcher(pattern@);
    let mut i: usize = 0;
    proof {
        reveal(Seq::filter);
        assert(names.take(0) =~= Seq::empty());
        assert(out.deep_view() =~= Seq::empty());
    }
    while i < declared.len()
        invariant
            i <= declared.len(),
            p@ == pattern@,
            names == declared.deep_view(),
            pred == matcher(pattern@),
            out.deep_view() == names.take(i as int).filter(pred),
        decreases declared.len() - i,
    {
        let name = to_chars(declared[i].as_str());
        let ghost before = out.deep_view();
        proof {
            assert(names.take(i as int + 1) =~= names.take(i as int).push(names[i as int]));
            names.take(i as int).lemma_filter_push(names[i as int], pred);
        }
        if matches_chars(&p, &name) {
            out.push(declared[i].clone());
            assert(out.deep_view() =~= before.push(names[i as int]));
        }
        i = i + 1;
    }
    assert(names.take(i as int) =~= names);
    out
}

} // verus!
