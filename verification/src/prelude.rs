//! The items that most callers need.

pub use crate::candidate::Candidate;
pub use crate::config::AutoCorrectConfig;
pub use crate::config::Config;
pub use crate::config::SupportedLocale;
pub use crate::AutoCorrect;
