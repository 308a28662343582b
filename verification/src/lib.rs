//! Compiles the boolean condition of a Sigma-style detection rule into a
//! syntax tree, checks its references against the declared search blocks and
//! evaluates the tree against the per-block match results of one event.
//!
//! A condition such as `selection and not filter` or `1 of selection*` goes
//! through [`compile`], which parses it by the grammar of [`grammar`] and
//! looks up every name and pattern among the declared search blocks.
//! [`evaluate`] then gives the verdict of the compiled tree for the facts of
//! one event, and [`render`] gives its canonical text back.
//!
//! What holds of all conditions is proved in [`soundness`] (every parsed tree
//! is well formed), [`round_trip`] (the text of a compiled tree compiles to
//! the same tree) and [`whitespace`] (how much whitespace stands between
//! tokens and round a condition is insignificant).

pub mod compiler;
pub mod detection;
pub mod detection_builder;
pub mod evaluator;
pub mod grammar;
pub mod node;
pub mod or_parser;
pub mod parser;
pub mod render;
pub mod resolver;
pub mod round_trip;
pub mod search_id_parser;
pub mod sigma_rule;
pub mod soundness;
pub mod text;
pub mod whitespace;

pub use compiler::{compile, parse_condition, CompileError};
pub use evaluator::{evaluate, try_evaluate, EvaluationError, Facts};
pub use grammar::SyntaxReason;
pub use node::ConditionNode;
pub use render::render;
pub use resolver::resolve;
