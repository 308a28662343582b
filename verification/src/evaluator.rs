//! Evaluation of a compiled condition against the match results of the
//! search blocks for one event.

use crate::compiler::{first_unresolved, first_unresolved_in, first_unresolved_reference};
use crate::node::{lemma_model_of_terms, models, ConditionNode, Expr};
use crate::resolver::{lemma_resolve_contains, pattern_matches, resolve, resolve_spec};
use vstd::prelude::*;
use vstd::string::*;

verus! {

/// The match results of one event: for each search block's name, whether the
/// block matched.
#[derive(Debug)]
pub struct Facts {
    entries: Vec<(String, bool)>,
}

/// The map that a list of entries stands for: a later entry for a name
/// replaces an earlier one.
pub closed spec fn facts_of(entries: Seq<(String, bool)>) -> Map<Seq<char>, bool>
    decreases entries.len(),
{
    if entries.len() == 0 {
        Map::empty()
    } else {
        facts_of(entries.drop_last()).insert(entries.last().0@, entries.last().1)
    }
}

impl View for Facts {
    type V = Map<Seq<char>, bool>;

    closed spec fn view(&self) -> Map<Seq<char>, bool> {
        facts_of(self.entries@)
    }
}

impl Facts {
    /// No results yet.
    pub fn new() -> (r: Facts)
        ensures
            r@ == Map::<Seq<char>, bool>::empty(),
    {
        Facts { entries: Vec::new() }
    }

    /// Records whether the search block `name` matched; an earlier result for
    /// the same name is replaced.
    pub fn set(&mut self, name: &str, matched: bool)
        ensures
            final(self)@ == old(self)@.insert(name@, matched),
    {
        let ghost before = self.entries@;
        self.entries.push((name.to_owned(), matched));
        assert(self.entries@.drop_last() =~= before);
    }

    /// The result recorded for the search block `name`, if there is one.
    pub fn get(&self, name: &str) -> (r: Option<bool>)
        ensures
            r == if self@.dom().contains(name@) {
                Some(self@[name@])
            } else {
                None
            },
    {
        let wanted = name.to_owned();
        let mut i: usize = self.entries.len();
        assert(self.entries@.take(i as int) =~= self.entries@);
        while i > 0
            invariant
                i <= self.entries.len(),
                wanted@ == name@,
                facts_of(self.entries@).dom().contains(name@) == facts_of(
                    self.entries@.take(i as int),
                ).dom().contains(name@),
                facts_of(self.entries@).dom().contains(name@) ==> facts_of(self.entries@)[name@]
                    == facts_of(self.entries@.take(i as int))[name@],
            decreases i,
        {
            assert(self.entries@.take(i as int).drop_last() =~= self.entries@.take(i as int - 1));
            if self.entries[i - 1].0 == wanted {
                return Some(self.entries[i - 1].1);
            }
            i = i - 1;
        }
        None
    }
}

/// At least one of the names has a true fact.
pub open spec fn any_true(names: Seq<Seq<char>>, facts: Map<Seq<char>, bool>) -> bool {
    exists|i: int| 0 <= i < names.len() && facts[#[trigger] names[i]]
}

/// There is at least one name, and every name has a true fact.
pub open spec fn all_true(names: Seq<Seq<char>>, facts: Map<Seq<char>, bool>) -> bool {
    &&& names.len() > 0
    &&& forall|i: int| 0 <= i < names.len() ==> facts[#[trigger] names[i]]
}

/// The verdict of a condition: what the tree `e` comes to over the declared
/// names and the facts.
pub open spec fn eval(e: Expr, declared: Seq<Seq<char>>, facts: Map<Seq<char>, bool>) -> bool
    decreases e, 0nat,
{
    match e {
        Expr::Identifier(name) => facts[name],
        Expr::Not(inner) => !eval(*inner, declared, facts),
        Expr::And(terms) => eval_all(terms, 0, declared, facts),
        Expr::Or(terms) => eval_any(terms, 0, declared, facts),
        Expr::OneOfPattern(pattern) => any_true(resolve_spec(pattern, declared), facts),
        Expr::AllOfPattern(pattern) => all_true(resolve_spec(pattern, declared), facts),
        Expr::OneOfThem => any_true(declared, facts),
        Expr::AllOfThem => all_true(declared, facts),
    }
}

/// Every term from index `from` on comes to true.
pub open spec fn eval_all(
    terms: Seq<Expr>,
    from: int,
    declared: Seq<Seq<char>>,
    facts: Map<Seq<char>, bool>,
) -> bool
    decreases terms, terms.len() - from,
{
    if 0 <= from < terms.len() {
        eval(terms[from], declared, facts) && eval_all(terms, from + 1, declared, facts)
    } else {
        true
    }
}

/// Some term from index `from` on comes to true.
pub open spec fn eval_any(
    terms: Seq<Expr>,
    from: int,
    declared: Seq<Seq<char>>,
    facts: Map<Seq<char>, bool>,
) -> bool
    decreases terms, terms.len() - from,
{
    if 0 <= from < terms.len() {
        eval(terms[from], declared, facts) || eval_any(terms, from + 1, declared, facts)
    } else {
        false
    }
}

/// A conjunction is true exactly when every one of its terms is, and a
/// disjunction exactly when at least one is.
pub proof fn lemma_eval_terms(
    terms: Seq<Expr>,
    from: int,
    declared: Seq<Seq<char>>,
    facts: Map<Seq<char>, bool>,
)
    requires
        0 <= from,
    ensures
        eval_all(terms, from, declared, facts) <==> forall|i: int|
            from <= i < terms.len() ==> eval(#[trigger] terms[i], declared, facts),
        eval_any(terms, from, declared, facts) <==> exists|i: int|
            from <= i < terms.len() && eval(#[trigger] terms[i], declared, facts),
    decreases terms.len() - from,
{
    if from < terms.len() {
        lemma_eval_terms(terms, from + 1, declared, facts);
        if eval_any(terms, from, declared, facts) {
            if eval(terms[from], declared, facts) {
            } else {
                let i = choose|i: int|
                    from + 1 <= i < terms.len() && eval(#[trigger] terms[i], declared, facts);
                assert(from <= i < terms.len() && eval(terms[i], declared, facts));
            }
        }
    }
}

/// A quantifier over a pattern ranges over the declared names that the
/// pattern stands for, and a quantifier over `them` over every declared
/// name: `1 of` is true exactly when one of these names has a true fact, and
/// `all of` exactly when there is such a name and each of them has one.
pub proof fn lemma_eval_quantifiers(
    pattern: Seq<char>,
    declared: Seq<Seq<char>>,
    facts: Map<Seq<char>, bool>,
)
    ensures
        eval(Expr::OneOfPattern(pattern), declared, facts) <==> exists|name: Seq<char>|
            #![trigger facts[name]]
            declared.contains(name) && pattern_matches(pattern, name) && facts[name],
        eval(Expr::AllOfPattern(pattern), declared, facts) <==> (exists|name: Seq<char>|
            #![trigger declared.contains(name)]
            declared.contains(name) && pattern_matches(pattern, name)) && forall|name: Seq<char>|
            #![trigger facts[name]]
            declared.contains(name) && pattern_matches(pattern, name) ==> facts[name],
        eval(Expr::OneOfThem, declared, facts) <==> exists|name: Seq<char>|
            #![trigger facts[name]]
            declared.contains(name) && facts[name],
        eval(Expr::AllOfThem, declared, facts) <==> declared.len() > 0 && forall|name: Seq<char>|
            #![trigger facts[name]]
            declared.contains(name) ==> facts[name],
{
    let found = resolve_spec(pattern, declared);
    assert forall|name: Seq<char>|
        found.contains(name) <==> declared.contains(name) && pattern_matches(
            pattern,
            name,
        ) by {
        lemma_resolve_contains(pattern, declared, name);
    }
    if any_true(found, facts) {
        let i = choose|i: int| 0 <= i < found.len() && facts[#[trigger] found[i]];
        assert(found.contains(found[i]));
    }
    if exists|name: Seq<char>|
        #![trigger facts[name]]
        declared.contains(name) && pattern_matches(pattern, name) && facts[name] {
        let name = choose|name: Seq<char>|
            #![trigger facts[name]]
            declared.contains(name) && pattern_matches(pattern, name) && facts[name];
        assert(found.contains(name));
        let i = choose|i: int| 0 <= i < found.len() && found[i] == name;
        assert(facts[found[i]]);
    }
    if found.len() > 0 {
        assert(found.contains(found[0]));
    }
    if exists|name: Seq<char>|
        #![trigger declared.contains(name)]
        declared.contains(name) && pattern_matches(pattern, name) {
        let name = choose|name: Seq<char>|
            #![trigger declared.contains(name)]
            declared.contains(name) && pattern_matches(pattern, name);
        assert(found.contains(name));
    }
    if all_true(found, facts) {
        assert forall|name: Seq<char>|
            #![trigger facts[name]]
            declared.contains(name) && pattern_matches(pattern, name) implies facts[name] by {
            assert(found.contains(name));
            let i = choose|i: int| 0 <= i < found.len() && found[i] == name;
            assert(facts[found[i]]);
        }
    }
    if forall|name: Seq<char>|
        #![trigger facts[name]]
        declared.contains(name) && pattern_matches(pattern, name) ==> facts[name] {
        assert forall|i: int| 0 <= i < found.len() implies facts[#[trigger] found[i]] by {
            assert(found.contains(found[i]));
        }
    }
    if any_true(declared, facts) {
        let i = choose|i: int| 0 <= i < declared.len() && facts[#[trigger] declared[i]];
        assert(declared.contains(declared[i]));
    }
    if exists|name: Seq<char>| #![trigger facts[name]] declared.contains(name) && facts[name] {
        let name = choose|name: Seq<char>|
            #![trigger facts[name]]
            declared.contains(name) && facts[name];
        let i = choose|i: int| 0 <= i < declared.len() && declared[i] == name;
        assert(facts[declared[i]]);
    }
    if all_true(declared, facts) {
        assert forall|name: Seq<char>|
            #![trigger facts[name]]
            declared.contains(name) implies facts[name] by {
            let i = choose|i: int| 0 <= i < declared.len() && declared[i] == name;
            assert(facts[declared[i]]);
        }
    }
    if forall|name: Seq<char>| #![trigger facts[name]] declared.contains(name) ==> facts[name] {
        assert forall|i: int| 0 <= i < declared.len() implies facts[#[trigger] declared[i]] by {
            assert(declared.contains(declared[i]));
        }
    }
}

/// The facts hold a result for every one of the names.
pub open spec fn covers(facts: Map<Seq<char>, bool>, names: Seq<Seq<char>>) -> bool {
    forall|i: int| 0 <= i < names.len() ==> facts.dom().contains(#[trigger] names[i])
}

/// Where no reference among the terms is unresolved, none is in any one term.
pub proof fn lemma_terms_resolved(terms: Seq<Expr>, from: int, declared: Seq<Seq<char>>)
    requires
        0 <= from,
        first_unresolved_in(terms, from, declared) is None,
    ensures
        forall|i: int|
            from <= i < terms.len() ==> first_unresolved(#[trigger] terms[i], declared) is None,
    decreases terms.len() - from,
{
    if from < terms.len() {
        lemma_terms_resolved(terms, from + 1, declared);
    }
}

/// Whether the facts hold a result for every one of the names.
pub fn facts_cover(facts: &Facts, names: &Vec<String>) -> (r: bool)
    ensures
        r == covers(facts@, names.deep_view()),
{
    let mut i: usize = 0;
    while i < names.len()
        invariant
            i <= names.len(),
            forall|j: int| 0 <= j < i ==> facts@.dom().contains(#[trigger] names.deep_view()[j]),
        decreases names.len() - i,
    {
        if facts.get(names[i].as_str()).is_none() {
            assert(!facts@.dom().contains(names.deep_view()[i as int]));
            return false;
        }
        i = i + 1;
    }
    true
}

/// The first of the names from index `from` on for which the facts hold no
/// result.
pub open spec fn first_missing(facts: Map<Seq<char>, bool>, names: Seq<Seq<char>>, from: int)
    -> Option<Seq<char>>
    decreases names.len() - from,
{
    if 0 <= from < names.len() {
        if facts.dom().contains(names[from]) {
            first_missing(facts, names, from + 1)
        } else {
            Some(names[from])
        }
    } else {
        None
    }
}

/// The facts cover the names exactly when none of them is missing.
pub proof fn lemma_first_missing(facts: Map<Seq<char>, bool>, names: Seq<Seq<char>>, from: int)
    requires
        0 <= from,
    ensures
        first_missing(facts, names, from) is None <==> forall|i: int|
            from <= i < names.len() ==> facts.dom().contains(#[trigger] names[i]),
    decreases names.len() - from,
{
    if from < names.len() {
        lemma_first_missing(facts, names, from + 1);
    }
}

/// The first of the names for which the facts hold no result.
pub fn first_missing_fact(facts: &Facts, names: &Vec<String>) -> (r: Option<String>)
    ensures
        match r {
            Some(name) => first_missing(facts@, names.deep_view(), 0) == Some(name@),
            None => first_missing(facts@, names.deep_view(), 0) is None,
        },
{
    let mut i: usize = 0;
    while i < names.len()
        invariant
            i <= names.len(),
            first_missing(facts@, names.deep_view(), 0) == first_missing(
                facts@,
                names.deep_view(),
                i as int,
            ),
        decreases names.len() - i,
    {
        assert(names.deep_view()[i as int] == names[i as int]@);
        if facts.get(names[i].as_str()).is_none() {
            return Some(names[i].clone());
        }
        i = i + 1;
    }
    None
}

/// Why a condition was not evaluated.
#[derive(Clone, Debug, PartialEq, Eq)]
pub enum EvaluationError {
    /// The tree holds this name or pattern, which stands for no declared
    /// search block: the tree was not compiled against these names.
    UnresolvedReference(String),
    /// The facts hold no result for this declared name.
    MissingFact(String),
}

/// The verdict of a condition for one event, for any tree and any facts.
///
/// The verdict is that of `evaluate`. Where `evaluate` cannot be asked, the
/// reason is given and no verdict is made up: the first unresolved reference
/// of the tree or, if there is none, the first declared name without a fact.
pub fn try_evaluate(node: &ConditionNode, declared: &Vec<String>, facts: &Facts) -> (r: Result<
    bool,
    EvaluationError,
>)
    ensures
        match r {
            Ok(verdict) => first_unresolved(node@, declared.deep_view()) is None && covers(
                facts@,
                declared.deep_view(),
            ) && verdict == eval(node@, declared.deep_view(), facts@),
            Err(EvaluationError::UnresolvedReference(name)) => first_unresolved(
                node@,
                declared.deep_view(),
            ) == Some(name@),
            Err(EvaluationError::MissingFact(name)) => first_unresolved(
                node@,
                declared.deep_view(),
            ) is None && first_missing(facts@, declared.deep_view(), 0) == Some(name@),
        },
{
    match first_unresolved_reference(node, declared) {
        Some(name) => Err(EvaluationError::UnresolvedReference(name)),
        None => match first_missing_fact(facts, declared) {
            Some(name) => Err(EvaluationError::MissingFact(name)),
            None => {
                proof {
                    lemma_first_missing(facts@, declared.deep_view(), 0);
                }
                Ok(evaluate(node, declared, facts))
            },
        },
    }
}

/// Whether at least one of the names has a true fact.
fn any_fact(names: &Vec<String>, facts: &Facts) -> (r: bool)
    requires
        covers(facts@, names.deep_view()),
    ensures
        r == any_true(names.deep_view(), facts@),
{
    let mut i: usize = 0;
    while i < names.len()
        invariant
            i <= names.len(),
            covers(facts@, names.deep_view()),
            forall|j: int| 0 <= j < i ==> !facts@[#[trigger] names.deep_view()[j]],
        decreases names.len() - i,
    {
        assert(facts@.dom().contains(names.deep_view()[i as int]));
        if facts.get(names[i].as_str()) == Some(true) {
            assert(facts@[names.deep_view()[i as int]]);
            return true;
        }
        i = i + 1;
    }
    false
}

/// Whether there is a name and every name has a true fact.
fn all_facts(names: &Vec<String>, facts: &Facts) -> (r: bool)
    requires
        covers(facts@, names.deep_view()),
    ensures
        r == all_true(names.deep_view(), facts@),
{
    let mut i: usize = 0;
    while i < names.len()
        invariant
            i <= names.len(),
            covers(facts@, names.deep_view()),
            forall|j: int| 0 <= j < i ==> facts@[#[trigger] names.deep_view()[j]],
        decreases names.len() - i,
    {
        assert(facts@.dom().contains(names.deep_view()[i as int]));
        if facts.get(names[i].as_str()) != Some(true) {
            assert(!facts@[names.deep_view()[i as int]]);
            return false;
        }
        i = i + 1;
    }
    names.len() > 0
}

/// The names that a pattern resolves to are declared, so facts that cover
/// the declared names cover them.
proof fn lemma_covers_resolved(
    facts: Map<Seq<char>, bool>,
    pattern: Seq<char>,
    declared: Seq<Seq<char>>,
)
    requires
        covers(facts, declared),
    ensures
        covers(facts, resolve_spec(pattern, declared)),
{
    let found = resolve_spec(pattern, declared);
    assert forall|i: int| 0 <= i < found.len() implies facts.dom().contains(
        #[trigger] found[i],
    ) by {
        assert(found.contains(found[i]));
        lemma_resolve_contains(pattern, declared, found[i]);
        let j = choose|j: int| 0 <= j < declared.len() && declared[j] == found[i];
        assert(facts.dom().contains(declared[j]));
    }
}

/// The verdict of a compiled condition for one event.
///
/// The tree must be one whose references are all resolved against
/// `declared`, as `compile` gives it, and the facts must hold a result for
/// every declared name. Conjunctions stop at their first false term and
/// disjunctions at their first true one.
pub fn evaluate(node: &ConditionNode, declared: &Vec<String>, facts: &Facts) -> (verdict: bool)
    requires
        first_unresolved(node@, declared.deep_view()) is None,
        covers(facts@, declared.deep_view()),
    ensures
        verdict == eval(node@, declared.deep_view(), facts@),
    decreases node,
{
    proof {
        lemma_model_of_terms(*node);
    }
    match node {
        ConditionNode::Identifier(name) => {
            proof {
                let names = declared.deep_view();
                let j = choose|j: int| 0 <= j < names.len() && names[j] == name@;
                assert(facts@.dom().contains(names[j]));
            }
            facts.get(name.as_str()) == Some(true)
        },
        ConditionNode::Not(inner) => !evaluate(inner, declared, facts),
        ConditionNode::And(terms) => evaluate_all(terms, declared, facts),
        ConditionNode::Or(terms) => evaluate_any(terms, declared, facts),
        ConditionNode::OneOfPattern(pattern) => {
            proof {
                lemma_covers_resolved(facts@, pattern@, declared.deep_view());
            }
            let names = resolve(pattern.as_str(), declared);
            any_fact(&names, facts)
        },
        ConditionNode::AllOfPattern(pattern) => {
            proof {
                lemma_covers_resolved(facts@, pattern@, declared.deep_view());
            }
            let names = resolve(pattern.as_str(), declared);
            all_facts(&names, facts)
        },
        ConditionNode::OneOfThem => any_fact(declared, facts),
        ConditionNode::AllOfThem => all_facts(declared, facts),
    }
}

/// Whether every one of the terms comes to true; stops at the first that
/// does not.
fn evaluate_all(terms: &Vec<ConditionNode>, declared: &Vec<String>, facts: &Facts) -> (r: bool)
    requires
        first_unresolved_in(models(terms@), 0, declared.deep_view()) is None,
        covers(facts@, declared.deep_view()),
    ensures
        r == eval_all(models(terms@), 0, declared.deep_view(), facts@),
    decreases terms,
{
    proof {
        lemma_terms_resolved(models(terms@), 0, declared.deep_view());
    }
    let mut i: usize = 0;
    while i < terms.len()
        invariant
            i <= terms.len(),
            covers(facts@, declared.deep_view()),
            forall|j: int|
                0 <= j < terms.len() ==> first_unresolved(
                    #[trigger] models(terms@)[j],
                    declared.deep_view(),
                ) is None,
            eval_all(models(terms@), 0, declared.deep_view(), facts@) == eval_all(
                models(terms@),
                i as int,
                declared.deep_view(),
                facts@,
            ),
        decreases terms.len() - i,
    {
        assert(models(terms@)[i as int] == terms[i as int]@);
        if !evaluate(&terms[i], declared, facts) {
            return false;
        }
        i = i + 1;
    }
    true
}

/// Whether at least one of the terms comes to true; stops at the first that
/// does.
fn evaluate_any(terms: &Vec<ConditionNode>, declared: &Vec<String>, facts: &Facts) -> (r: bool)
    requires
        first_unresolved_in(models(terms@), 0, declared.deep_view()) is None,
        covers(facts@, declared.deep_view()),
    ensures
        r == eval_any(models(terms@), 0, declared.deep_view(), facts@),
    decreases terms,
{
    proof {
        lemma_terms_resolved(models(terms@), 0, declared.deep_view());
    }
    let mut i: usize = 0;
    while i < terms.len()
        invariant
            i <= terms.len(),
            covers(facts@, declared.deep_view()),
            forall|j: int|
                0 <= j < terms.len() ==> first_unresolved(
                    #[trigger] models(terms@)[j],
                    declared.deep_view(),
                ) is None,
            eval_any(models(terms@), 0, declared.deep_view(), facts@) == eval_any(
                models(terms@),
                i as int,
                declared.deep_view(),
                facts@,
            ),
        decreases terms.len() - i,
    {
        assert(models(terms@)[i as int] == terms[i as int]@);
        if evaluate(&terms[i], declared, facts) {
            return true;
        }
        i = i + 1;
    }
    false
}

} // verus!
