//! One parser per language.

pub mod agda;
pub mod haskell;
pub mod typescript;

pub use agda::AgdaParser;
pub use haskell::HaskellParser;
pub use typescript::TypeScriptParser;
