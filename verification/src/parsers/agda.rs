//! Agda: `open import Some.Module`.

use crate::engine::{Step, Traversal};
use crate::language::{
    DependencyParser,
    Language,
    LanguageKind,
    Plan,
    PlanView,
    Search,
    SearchView,
};
use crate::paths::{directory, join, parent_dir, path_join};
use crate::pattern::{find_references, references_of};
use crate::text::{head, head_of, holds_name, join_text, text_view, texts_view};
use vstd::prelude::*;

verus! {

/// The parser for Agda sources.
pub struct AgdaParser;

/// An import statement; its one group is the module's dotted name.
pub const IMPORT_PATTERN: &'static str = r"open\s+import\s+([\w.]+)";

/// What a module's dotted name is followed by in the name of its file.
pub const FILE_SUFFIX: &'static str = ".agda";

/// The namespaces that the standard library keeps to itself: a module whose
/// name begins with one of them is not looked for in the tree.
pub open spec fn standard_namespaces() -> Seq<Seq<char>> {
    seq!["Agda"@, "Data"@, "Relation"@]
}

/// Lists the namespaces that the standard library keeps to itself.
pub fn standard_namespace_list() -> (r: Vec<&'static str>)
    ensures
        r.deep_view() == standard_namespaces(),
{
    let mut list: Vec<&'static str> = Vec::new();
    list.push("Agda");
    list.push("Data");
    list.push("Relation");
    proof {
        assert(list.deep_view() =~= standard_namespaces());
    }
    list
}

impl AgdaParser {
    /// The module names that `content` imports, in the order of the text.
    pub open spec fn spec_extract(content: Seq<char>) -> Result<Seq<Seq<char>>, Seq<char>> {
        references_of(IMPORT_PATTERN@, content, 1, 1)
    }

    /// A module is local unless the first segment of its dotted name is a
    /// standard namespace.
    pub open spec fn spec_is_local_import(import_path: Seq<char>) -> bool {
        !standard_namespaces().contains(head(import_path, '.'))
    }

    /// The one place where a local module's file can be: beside the
    /// importing file, under the module's dotted name.
    pub open spec fn spec_resolve_local_path(
        current_file: Seq<char>,
        import_path: Seq<char>,
    ) -> Result<Seq<char>, Seq<char>> {
        match parent_dir(current_file) {
            Some(dir) => Ok(path_join(dir, import_path + FILE_SUFFIX@)),
            None => Err("Failed to get parent directory"@),
        }
    }

    /// What becomes of one import: a standard module is external; any other
    /// is taken from its one place, which must be there.
    pub open spec fn spec_plan(current_file: Seq<char>, import_path: Seq<char>) -> PlanView {
        if Self::spec_is_local_import(import_path) {
            match Self::spec_resolve_local_path(current_file, import_path) {
                Ok(path) => PlanView::Resolve(
                    SearchView { candidates: seq![], fallback: Some(path), strict: true },
                ),
                Err(message) => PlanView::Fail(message),
            }
        } else {
            PlanView::External
        }
    }

    /// Finds the module names that `content` imports.
    pub fn extract(&self, content: &str) -> (r: Result<Vec<String>, String>)
        ensures
            texts_view(r) == Self::spec_extract(content@),
    {
        find_references(IMPORT_PATTERN, content, 1, 1)
    }

    /// Whether `import_path` names a module of the tree.
    pub fn is_local_import(&self, import_path: &str) -> (r: bool)
        ensures
            r == Self::spec_is_local_import(import_path@),
    {
        let namespace: String = head_of(import_path, '.');
        let standard: Vec<&'static str> = standard_namespace_list();
        !holds_name(&standard, namespace.as_str())
    }

    /// The path at which the file of module `import_path` is expected, seen
    /// from `current_file`. Fails when `current_file` has no directory.
    pub fn resolve_local_path(&self, current_file: &str, import_path: &str) -> (r: Result<
        String,
        String,
    >)
        ensures
            text_view(r) == Self::spec_resolve_local_path(current_file@, import_path@),
    {
        match directory(current_file) {
            Some(dir) => {
                let file_name: String = join_text(import_path, FILE_SUFFIX);
                Ok(join(dir.as_str(), file_name.as_str()))
            },
            None => Err(String::from_str("Failed to get parent directory")),
        }
    }

    /// Decides what becomes of the import of `import_path` in `current_file`.
    pub fn plan(&self, current_file: &str, import_path: &str) -> (r: Plan)
        ensures
            r@ == Self::spec_plan(current_file@, import_path@),
    {
        if self.is_local_import(import_path) {
            match self.resolve_local_path(current_file, import_path) {
                Ok(path) => {
                    let search = Search {
                        candidates: Vec::new(),
                        fallback: Some(path),
                        strict: true,
                    };
                    proof {
                        assert(search.candidates.deep_view() =~= Seq::<Seq<char>>::empty());
                    }
                    Plan::Resolve(search)
                },
                Err(message) => Plan::Fail(message),
            }
        } else {
            Plan::External
        }
    }
}

impl DependencyParser for AgdaParser {
    open spec fn kind(&self) -> LanguageKind {
        LanguageKind::Agda
    }

    fn parse(&self, file: &str, language: &Language) -> (step: Step) {
        Traversal::begin(LanguageKind::Agda, language.include_external, file)
    }
}

} // verus!
