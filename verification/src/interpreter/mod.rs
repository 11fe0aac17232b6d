//! The evaluation strategies and what they share.
pub mod augment;
pub mod big;
pub mod config;
pub mod error;
pub mod fast;
pub mod naive;
pub mod roll;
pub mod roller;
pub mod tagged;
pub mod truncation;
pub mod verbose;

pub use augment::{augment, should_selector_discard};
pub use big::{convolve, BigRoller};
pub use config::{RollerConfig, SettingsView};
pub use error::{RollerError, RollerErrorView, RollerResult};
pub use fast::{FastRoller, FastRollerError};
pub use naive::{NaiveRoller, NaiveValue, StandardNaiveRoller};
pub use roll::{augmented_roll, fast_roll_many, DiceRoll};
pub use roller::SimpleRoller;
pub use tagged::{DiceRollTag, TaggedDiceRoll};
pub use verbose::{StandardVerboseRoller, VerboseRoll, VerboseRoller};
