//! What most users of the library need.
pub use crate::interpreter::naive::StandardNaiveRoller;
pub use crate::options::RollerOptions;
pub use crate::parser::{parse, ParsingError};
pub use crate::simplify::advanced_simplify;
pub use crate::syntax::Expression;
