//! The syntax tree of a condition and its mathematical model.

use crate::text::is_name;
use vstd::prelude::*;

verus! {

/// The mathematical model of a condition tree.
pub enum Expr {
    Identifier(Seq<char>),
    Not(Box<Expr>),
    And(Seq<Expr>),
    Or(Seq<Expr>),
    OneOfPattern(Seq<char>),
    AllOfPattern(Seq<char>),
    OneOfThem,
    AllOfThem,
}

/// The shape that every parsed tree has: names and patterns are words of the
/// language that spell no keyword, and a conjunction or disjunction has at
/// least two terms.
pub open spec fn well_formed(e: Expr) -> bool
    decreases e, 0nat,
{
    match e {
        Expr::Identifier(name) => is_name(name),
        Expr::Not(inner) => well_formed(*inner),
        Expr::And(terms) => terms.len() >= 2 && well_formed_from(terms, 0),
        Expr::Or(terms) => terms.len() >= 2 && well_formed_from(terms, 0),
        Expr::OneOfPattern(pattern) => is_name(pattern),
        Expr::AllOfPattern(pattern) => is_name(pattern),
        Expr::OneOfThem => true,
        Expr::AllOfThem => true,
    }
}

/// Every term from index `from` on is well formed.
pub open spec fn well_formed_from(terms: Seq<Expr>, from: int) -> bool
    decreases terms, terms.len() - from,
{
    if 0 <= from < terms.len() {
        well_formed(terms[from]) && well_formed_from(terms, from + 1)
    } else {
        true
    }
}

/// The terms from `from` on are well formed exactly when each of them is.
pub proof fn lemma_well_formed_from(terms: Seq<Expr>, from: int)
    requires
        0 <= from,
    ensures
        well_formed_from(terms, from) <==> forall|i: int|
            from <= i < terms.len() ==> well_formed(#[trigger] terms[i]),
    decreases terms.len() - from,
{
    if from < terms.len() {
        lemma_well_formed_from(terms, from + 1);
    }
}

/// One node of a compiled condition.
#[derive(Debug, PartialEq, Eq)]
pub enum ConditionNode {
    Identifier(String),
    Not(Box<ConditionNode>),
    And(Vec<ConditionNode>),
    Or(Vec<ConditionNode>),
    OneOfPattern(String),
    AllOfPattern(String),
    OneOfThem,
    AllOfThem,
}

impl ConditionNode {
    /// The tree as a mathematical value: names become character sequences
    /// and term lists become sequences of trees.
    pub open spec fn model(self) -> Expr
        decreases self,
    {
        match self {
            ConditionNode::Identifier(name) => Expr::Identifier(name@),
            ConditionNode::Not(inner) => Expr::Not(Box::new((*inner).model())),
            ConditionNode::And(terms) => Expr::And(
                Seq::new(
                    terms.len() as nat,
                    |i: int|
                        if 0 <= i < terms.len() {
                            terms[i].model()
                        } else {
                            arbitrary()
                        },
                ),
            ),
            ConditionNode::Or(terms) => Expr::Or(
                Seq::new(
                    terms.len() as nat,
                    |i: int|
                        if 0 <= i < terms.len() {
                            terms[i].model()
                        } else {
                            arbitrary()
                        },
                ),
            ),
            ConditionNode::OneOfPattern(pattern) => Expr::OneOfPattern(pattern@),
            ConditionNode::AllOfPattern(pattern) => Expr::AllOfPattern(pattern@),
            ConditionNode::OneOfThem => Expr::OneOfThem,
            ConditionNode::AllOfThem => Expr::AllOfThem,
        }
    }
}

/// The models of a list of trees, in order.
pub open spec fn models(terms: Seq<ConditionNode>) -> Seq<Expr> {
    Seq::new(terms.len(), |i: int| terms[i].model())
}

/// The model of a conjunction or disjunction holds the models of its terms.
pub proof fn lemma_model_of_terms(node: ConditionNode)
    ensures
        node matches ConditionNode::And(terms) ==> node@ == Expr::And(models(terms@)),
        node matches ConditionNode::Or(terms) ==> node@ == Expr::Or(models(terms@)),
{
    match node {
        ConditionNode::And(terms) => {
            assert(node@->And_0 =~= models(terms@));
        },
        ConditionNode::Or(terms) => {
            assert(node@->Or_0 =~= models(terms@));
        },
        _ => {},
    }
}

impl Clone for ConditionNode {
    /// A copy of the tree: it has the same model.
    fn clone(&self) -> (r: Self)
        ensures
            r@ == self@,
        decreases self, 1nat,
    {
        proof {
            lemma_model_of_terms(*self);
        }
        match self {
            ConditionNode::Identifier(name) => ConditionNode::Identifier(name.clone()),
            ConditionNode::Not(inner) => {
                let copy: ConditionNode = (**inner).clone();
                ConditionNode::Not(Box::new(copy))
            },
            ConditionNode::And(terms) => {
                let r = ConditionNode::And(clone_terms(terms));
                proof {
                    lemma_model_of_terms(r);
                }
                r
            },
            ConditionNode::Or(terms) => {
                let r = ConditionNode::Or(clone_terms(terms));
                proof {
                    lemma_model_of_terms(r);
                }
                r
            },
            ConditionNode::OneOfPattern(pattern) => ConditionNode::OneOfPattern(pattern.clone()),
            ConditionNode::AllOfPattern(pattern) => ConditionNode::AllOfPattern(pattern.clone()),
            ConditionNode::OneOfThem => ConditionNode::OneOfThem,
            ConditionNode::AllOfThem => ConditionNode::AllOfThem,
        }
    }
}

/// Copies of the trees, in order.
fn clone_terms(terms: &Vec<ConditionNode>) -> (r: Vec<ConditionNode>)
    ensures
        models(r@) == models(terms@),
    decreases terms, 0nat,
{
    let mut out: Vec<ConditionNode> = Vec::new();
    let mut i: usize = 0;
    while i < terms.len()
        invariant
            i <= terms.len(),
            out.len() == i,
            forall|j: int| 0 <= j < i ==> (#[trigger] out[j])@ == terms[j]@,
        decreases terms.len() - i,
    {
        out.push(terms[i].clone());
        i = i + 1;
    }
    assert(models(out@) =~= models(terms@));
    out
}

impl View for ConditionNode {
    type V = Expr;

    open spec fn view(&self) -> Expr {
        self.model()
    }
}

} // verus!
