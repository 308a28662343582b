//! From a loaded rule to its compiled condition.

use crate::compiler::{compile, compile_spec, same_outcome, CompileError};
use crate::detection::read_condition;
use crate::node::ConditionNode;
use crate::sigma_rule::{
    condition_index, condition_text, find_condition, lemma_distinct_keys, search_identifiers_in,
    search_identifiers_of, SigmaRule,
};
use vstd::prelude::*;

verus! {

/// Compiles the condition of a rule against the search blocks that the rule
/// declares: the keys of its detection section other than `condition`.
///
/// The rule must be well formed, so that it has one condition at most and
/// declares no search block twice, and it must have an entry under
/// `condition`.
pub fn build(rule: &SigmaRule) -> (r: Result<ConditionNode, CompileError>)
    requires
        rule.well_formed(),
        condition_index(rule.detection@) is Some,
    ensures
        same_outcome(
            r,
            compile_spec(
                condition_text(rule.detection@[condition_index(rule.detection@)->0].1),
                search_identifiers_of(rule.detection@),
            ),
        ),
        search_identifiers_of(rule.detection@).no_duplicates(),
{
    proof {
        lemma_distinct_keys(rule.detection@);
    }
    let condition = read_condition(find_condition(&rule.detection));
    let search_identifiers = search_identifiers_in(&rule.detection);
    compile(condition, &search_identifiers)
}

} // verus!
