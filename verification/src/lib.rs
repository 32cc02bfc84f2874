//! Verified core of four small BSD command-line tools.
pub mod locate;
pub mod number;
pub mod parse;
pub mod pom;
pub mod text;
pub mod which;
