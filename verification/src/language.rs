//! The values the library deals in: a language descriptor, a dependency, and
//! the plan for resolving one import reference.

use crate::engine::Step;
use crate::parsers::{AgdaParser, HaskellParser, TypeScriptParser};
use crate::text::same_text;
use crate::traversal::begin;
use vstd::prelude::*;
use vstd::std_specs::cmp::PartialEqSpecImpl;

verus! {

/// The source language of one analysis.
pub struct Language {
    /// The name the parser was looked up by.
    pub name: String,
    /// The file extensions the language is known by. Informational.
    pub file_extensions: Vec<String>,
    /// Whether references that resolve to no file in the tree are reported.
    pub include_external: bool,
}

/// One dependency of a source file.
#[derive(Debug, Hash)]
pub enum Dependency {
    /// A file in the tree, by its canonical path.
    Local(String),
    /// A module or package outside the tree, by the name it was imported under.
    External(String),
}

/// A dependency as a mathematical value.
pub enum DependencyView {
    Local(Seq<char>),
    External(Seq<char>),
}

impl View for Dependency {
    type V = DependencyView;

    open spec fn view(&self) -> DependencyView {
        match self {
            Dependency::Local(path) => DependencyView::Local(path@),
            Dependency::External(name) => DependencyView::External(name@),
        }
    }
}

impl DeepView for Dependency {
    type V = DependencyView;

    open spec fn deep_view(&self) -> DependencyView {
        self@
    }
}

impl Clone for Dependency {
    fn clone(&self) -> (r: Self)
        ensures
            r@ == self@,
    {
        match self {
            Dependency::Local(path) => Dependency::Local(path.clone()),
            Dependency::External(name) => Dependency::External(name.clone()),
        }
    }
}

impl PartialEq for Dependency {
    fn eq(&self, other: &Self) -> (r: bool) {
        match (self, other) {
            (Dependency::Local(a), Dependency::Local(b)) => *a == *b,
            (Dependency::External(a), Dependency::External(b)) => *a == *b,
            _ => false,
        }
    }
}

impl PartialEqSpecImpl for Dependency {
    open spec fn obeys_eq_spec() -> bool {
        true
    }

    /// Two dependencies are equal when they are of the same variant and
    /// carry the same text.
    open spec fn eq_spec(&self, other: &Self) -> bool {
        self@ == other@
    }
}

impl Eq for Dependency {

}

/// Where to look for the file behind one import reference.
pub struct Search {
    /// The paths to look for, in order. The first that exists is the file.
    pub candidates: Vec<String>,
    /// The path to settle for when none of the candidates exists, if the
    /// language has one.
    pub fallback: Option<String>,
    /// Whether a path that cannot be made canonical fails the analysis. Where
    /// it does not, the reference counts as external.
    pub strict: bool,
}

/// A search as a mathematical value.
pub struct SearchView {
    pub candidates: Seq<Seq<char>>,
    pub fallback: Option<Seq<char>>,
    pub strict: bool,
}

impl View for Search {
    type V = SearchView;

    open spec fn view(&self) -> SearchView {
        SearchView {
            candidates: self.candidates.deep_view(),
            fallback: self.fallback.deep_view(),
            strict: self.strict,
        }
    }
}

/// What a language makes of one import reference found in a file.
pub enum Plan {
    /// The reference names something outside the tree.
    External,
    /// The reference cannot be resolved, and the analysis fails with this
    /// message.
    Fail(String),
    /// The reference names a file in the tree, to be found by this search.
    Resolve(Search),
}

/// A plan as a mathematical value.
pub enum PlanView {
    External,
    Fail(Seq<char>),
    Resolve(SearchView),
}

impl View for Plan {
    type V = PlanView;

    open spec fn view(&self) -> PlanView {
        match self {
            Plan::External => PlanView::External,
            Plan::Fail(message) => PlanView::Fail(message@),
            Plan::Resolve(search) => PlanView::Resolve(search@),
        }
    }
}

/// The languages the library knows.
#[derive(Clone, Copy, Debug)]
pub enum LanguageKind {
    Agda,
    Haskell,
    TypeScript,
}

/// What every language's parser can do: start the analysis of a file.
pub trait DependencyParser {
    /// The language that the parser is for.
    spec fn kind(&self) -> LanguageKind;

    /// Starts the traversal of the import graph at `file`. The step that
    /// comes back asks for the file's text; answering each step in turn
    /// leads to the dependencies of `file`.
    fn parse(&self, file: &str, language: &Language) -> (step: Step)
        ensures
            step@ == begin(self.kind(), language.include_external, file@),
            step@.inv(self.kind(), language.include_external),
    ;
}

/// The registry of parsers.
pub struct LanguageFactory;

impl LanguageFactory {
    /// The language that goes by the name `lang`, if there is one.
    pub open spec fn language_named(lang: Seq<char>) -> Option<LanguageKind> {
        if lang == "agda"@ {
            Some(LanguageKind::Agda)
        } else if lang == "haskell"@ {
            Some(LanguageKind::Haskell)
        } else if lang == "ts"@ || lang == "typescript"@ {
            Some(LanguageKind::TypeScript)
        } else {
            None
        }
    }

    /// The parser for the language named `lang`, or nothing when the name
    /// is not one of `agda`, `haskell`, `ts` and `typescript`.
    pub fn get_parser(lang: &str) -> (r: Option<Box<dyn DependencyParser>>)
        ensures
            r is Some <==> Self::language_named(lang@) is Some,
            r matches Some(parser) ==> Self::language_named(lang@) == Some(parser.kind()),
    {
        proof {
            reveal_strlit("agda");
            reveal_strlit("haskell");
            reveal_strlit("ts");
            reveal_strlit("typescript");
        }
        if same_text(lang, "agda") {
            let parser: Box<dyn DependencyParser> = Box::new(AgdaParser);
            let r = Some(parser);
            assert(r matches Some(p) && p.kind() == LanguageKind::Agda);
            return r;
        }
        if same_text(lang, "haskell") {
            let parser: Box<dyn DependencyParser> = Box::new(HaskellParser);
            let r = Some(parser);
            assert(r matches Some(p) && p.kind() == LanguageKind::Haskell);
            return r;
        }
        if same_text(lang, "ts") || same_text(lang, "typescript") {
            let parser: Box<dyn DependencyParser> = Box::new(TypeScriptParser);
            let r = Some(parser);
            assert(r matches Some(p) && p.kind() == LanguageKind::TypeScript);
            return r;
        }
        None
    }
}

} // verus!
