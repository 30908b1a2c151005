//! The command line's arguments, once they are parsed.

use crate::language::Language;
use crate::text::join_text;
use vstd::prelude::*;

verus! {

/// What the command line asks for.
pub struct Cli {
    /// The name of the source language.
    pub lang: String,
    /// The file whose dependencies are wanted.
    pub file: String,
    /// Whether dependencies outside the tree are reported.
    pub include_external: bool,
    /// Where the report goes, if not to the standard output.
    pub output: Option<String>,
    /// How much is said on the way.
    pub verbose: u8,
}

impl Cli {
    /// The descriptor of the language that was asked for: its name, the one
    /// extension made of a dot and the name, and the inclusion flag.
    pub fn language(&self) -> (language: Language)
        ensures
            language.name@ == self.lang@,
            language.file_extensions.deep_view() == seq!["."@ + self.lang@],
            language.include_external == self.include_external,
    {
        let mut file_extensions: Vec<String> = Vec::new();
        let extension: String = join_text(".", self.lang.as_str());
        file_extensions.push(extension);
        proof {
            assert(file_extensions.deep_view() =~= seq!["."@ + self.lang@]);
        }
        Language {
            name: self.lang.clone(),
            file_extensions,
            include_external: self.include_external,
        }
    }
}

} // verus!
