//! Evaluation of tabletop dice notation such as `4d6kh3 + 2`.
//!
//! A text is parsed into a syntax tree ([`parser`], [`syntax`]); the tree is
//! written back as canonical text ([`display`]), and parsing that text gives
//! the tree back ([`roundtrip`]); what the parser reads keeps its
//! parentheses when it is written ([`parentheses`]). A tree is evaluated by
//! one traversal ([`visitor`]) with one of the strategies ([`interpreter`]):
//! fast totals, tagged single dice, verbose totals with labelled results,
//! and exact arbitrary-precision rolls. The modifiers of a dice term are
//! applied by the augmentation engine ([`interpreter::augment`]); large dice
//! pools are sampled from the exact distribution of their sum
//! ([`interpreter::big`]). Repeated evaluations are counted in frequency
//! tables ([`simulate`]).
//!
//! What a function returns is stated by its contract and proved. The few
//! functions that call into other crates say in their comments what is
//! taken on trust of the call.
pub mod display;
pub mod integer;
pub mod interpreter;
pub mod minmax;
pub mod options;
pub mod parentheses;
pub mod parser;
pub mod prelude;
pub mod roundtrip;
pub mod simplify;
pub mod simulate;
pub mod syntax;
pub mod visitor;
