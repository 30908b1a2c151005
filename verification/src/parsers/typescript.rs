//! TypeScript: `import … from '…'`, `export … from '…'` and
//! `const x = require('…')`.

use crate::engine::{Step, Traversal};
use crate::language::{
    DependencyParser,
    Language,
    LanguageKind,
    Plan,
    PlanView,
    Search,
    SearchView,
};
use crate::paths::{
    directory,
    extension,
    join,
    parent_dir,
    path_extension,
    path_join,
    path_with_extension,
    plain_extension,
    with_extension,
};
use crate::pattern::{find_references, references_of};
use crate::text::{begins_with, texts_view};
use vstd::prelude::*;

verus! {

/// The parser for TypeScript and JavaScript sources.
pub struct TypeScriptParser;

/// An import or export statement, whose quoted path is the first group, or
/// a `require` call bound to a name, whose quoted path is the second.
pub const IMPORT_PATTERN: &'static str =
    r#"(?:import|export)(?:\s+type)?(?:\s+(?:[\w\s{},*]+)\s+from\s+)?['"]([^'"]+)['"]|(?:const|let|var)\s+\w+\s*=\s*require\(['"]([^'"]+)['"]\)"#;

/// The extensions under which a file named without one is looked for, in
/// the order in which they are tried.
pub open spec fn known_extensions() -> Seq<Seq<char>> {
    seq!["ts"@, "tsx"@, "js"@, "jsx"@]
}

/// The paths tried for a file named without an extension, given the
/// extensions to try: each is the one before it with its extension
/// replaced, starting from `base`.
pub open spec fn candidates_with(base: Seq<char>, extensions: Seq<Seq<char>>) -> Seq<Seq<char>>
    decreases extensions.len(),
{
    if extensions.len() == 0 {
        Seq::empty()
    } else {
        let first = path_with_extension(base, extensions[0]);
        seq![first] + candidates_with(first, extensions.drop_first())
    }
}

/// The paths tried for a file named without an extension.
pub open spec fn extension_candidates(base: Seq<char>) -> Seq<Seq<char>> {
    candidates_with(base, known_extensions())
}

/// The path that is taken when none of `candidates` exists: the last of
/// them, or `base` itself where there is none to try.
pub open spec fn last_resort(base: Seq<char>, candidates: Seq<Seq<char>>) -> Seq<char> {
    if candidates.len() == 0 {
        base
    } else {
        candidates.last()
    }
}

/// Where the file behind `import_path` is looked for, seen from
/// `current_file`. A path that names its extension is taken as it is. One
/// that does not is tried with each known extension in turn, and is taken
/// with the last of them when no such file exists: the search does not fail
/// by itself, and the missing file shows when its path is to be made
/// canonical.
pub open spec fn spec_resolve_local_path(
    current_file: Seq<char>,
    import_path: Seq<char>,
) -> Result<SearchView, Seq<char>> {
    match parent_dir(current_file) {
        Some(dir) => {
            let base = path_join(dir, import_path);
            if path_extension(base) is Some {
                Ok(SearchView { candidates: seq![], fallback: Some(base), strict: true })
            } else {
                let candidates = extension_candidates(base);
                Ok(
                    SearchView {
                        candidates,
                        fallback: Some(last_resort(base, candidates)),
                        strict: true,
                    },
                )
            }
        },
        None => Err("Failed to get parent directory"@),
    }
}

/// There is one candidate for each extension.
pub proof fn lemma_candidates_len(base: Seq<char>, extensions: Seq<Seq<char>>)
    ensures
        candidates_with(base, extensions).len() == extensions.len(),
    decreases extensions.len(),
{
    if extensions.len() > 0 {
        lemma_candidates_len(path_with_extension(base, extensions[0]), extensions.drop_first());
    }
}

/// A search or an error message, as mathematical values.
pub open spec fn search_view(r: Result<Search, String>) -> Result<SearchView, Seq<char>> {
    match r {
        Ok(search) => Ok(search@),
        Err(message) => Err(message@),
    }
}

/// Lists the extensions under which a file named without one is looked for.
pub fn known_extension_list() -> (r: Vec<&'static str>)
    ensures
        r.deep_view() == known_extensions(),
        forall|i: int| 0 <= i < r.len() ==> plain_extension(#[trigger] r[i]@),
{
    proof {
        reveal_strlit("ts");
        reveal_strlit("tsx");
        reveal_strlit("js");
        reveal_strlit("jsx");
    }
    let mut list: Vec<&'static str> = Vec::new();
    list.push("ts");
    list.push("tsx");
    list.push("js");
    list.push("jsx");
    proof {
        assert(list.deep_view() =~= known_extensions());
    }
    list
}

/// Lists the paths tried for a file named without an extension.
pub fn with_known_extensions(base: &str) -> (r: Vec<String>)
    ensures
        r.deep_view() == extension_candidates(base@),
{
    let extensions: Vec<&'static str> = known_extension_list();
    let mut out: Vec<String> = Vec::new();
    let mut current: String = String::from_str(base);
    let mut i: usize = 0;
    proof {
        assert(extensions.deep_view().skip(0) =~= extensions.deep_view());
        assert(out.deep_view() + candidates_with(current@, extensions.deep_view().skip(0))
            =~= extension_candidates(base@));
    }
    while i < extensions.len()
        invariant
            i <= extensions.len(),
            extensions.deep_view() == known_extensions(),
            forall|j: int| 0 <= j < extensions.len() ==> plain_extension(#[trigger] extensions[j]@),
            out.deep_view() + candidates_with(current@, extensions.deep_view().skip(i as int))
                == extension_candidates(base@),
        decreases extensions.len() - i,
    {
        let ghost before = out.deep_view();
        let ghost rest = extensions.deep_view().skip(i as int);
        let next: String = with_extension(current.as_str(), extensions[i]);
        proof {
            assert(rest[0] == extensions[i as int]@);
            assert(rest.drop_first() =~= extensions.deep_view().skip(i + 1));
        }
        out.push(next.clone());
        proof {
            assert(out.deep_view() =~= before.push(next@));
            assert(before + candidates_with(current@, rest) =~= out.deep_view() + candidates_with(
                next@,
                extensions.deep_view().skip(i + 1),
            ));
        }
        current = next;
        i = i + 1;
    }
    proof {
        assert(extensions.deep_view().skip(extensions.len() as int).len() == 0);
        assert(out.deep_view() + Seq::<Seq<char>>::empty() =~= out.deep_view());
    }
    out
}

/// Works out where the file behind `import_path` is looked for, seen from
/// `current_file`. Fails when `current_file` has no directory.
pub fn resolve_local_path(current_file: &str, import_path: &str) -> (r: Result<Search, String>)
    ensures
        search_view(r) == spec_resolve_local_path(current_file@, import_path@),
{
    match directory(current_file) {
        Some(dir) => {
            let base: String = join(dir.as_str(), import_path);
            match extension(base.as_str()) {
                Some(_) => {
                    let search = Search {
                        candidates: Vec::new(),
                        fallback: Some(base),
                        strict: true,
                    };
                    proof {
                        assert(search.candidates.deep_view() =~= Seq::<Seq<char>>::empty());
                    }
                    Ok(search)
                },
                None => {
                    let candidates: Vec<String> = with_known_extensions(base.as_str());
                    let count: usize = candidates.len();
                    let last: String = if count == 0 {
                        base
                    } else {
                        proof {
                            assert(candidates.deep_view()[count - 1] == candidates[count - 1]@);
                        }
                        candidates[count - 1].clone()
                    };
                    Ok(Search { candidates, fallback: Some(last), strict: true })
                },
            }
        },
        None => Err(String::from_str("Failed to get parent directory")),
    }
}

impl TypeScriptParser {
    /// The paths that `content` imports, in the order of the text.
    pub open spec fn spec_extract(content: Seq<char>) -> Result<Seq<Seq<char>>, Seq<char>> {
        references_of(IMPORT_PATTERN@, content, 1, 2)
    }

    /// A path is local when it begins with a dot.
    pub open spec fn spec_is_local_import(import_path: Seq<char>) -> bool {
        import_path.len() > 0 && import_path[0] == '.'
    }

    /// What becomes of one import: a path that does not begin with a dot is
    /// external; any other is searched for, and must be there.
    pub open spec fn spec_plan(current_file: Seq<char>, import_path: Seq<char>) -> PlanView {
        if Self::spec_is_local_import(import_path) {
            match spec_resolve_local_path(current_file, import_path) {
                Ok(search) => PlanView::Resolve(search),
                Err(message) => PlanView::Fail(message),
            }
        } else {
            PlanView::External
        }
    }

    /// Finds the paths that `content` imports.
    pub fn extract(&self, content: &str) -> (r: Result<Vec<String>, String>)
        ensures
            texts_view(r) == Self::spec_extract(content@),
    {
        find_references(IMPORT_PATTERN, content, 1, 2)
    }

    /// Whether `import_path` names a file of the tree.
    pub fn is_local_import(&self, import_path: &str) -> (r: bool)
        ensures
            r == Self::spec_is_local_import(import_path@),
    {
        begins_with(import_path, '.')
    }

    /// Decides what becomes of the import of `import_path` in `current_file`.
    pub fn plan(&self, current_file: &str, import_path: &str) -> (r: Plan)
        ensures
            r@ == Self::spec_plan(current_file@, import_path@),
    {
        if self.is_local_import(import_path) {
            match resolve_local_path(current_file, import_path) {
                Ok(search) => Plan::Resolve(search),
                Err(message) => Plan::Fail(message),
            }
        } else {
            Plan::External
        }
    }
}

impl DependencyParser for TypeScriptParser {
    open spec fn kind(&self) -> LanguageKind {
        LanguageKind::TypeScript
    }

    fn parse(&self, file: &str, language: &Language) -> (step: Step) {
        Traversal::begin(LanguageKind::TypeScript, language.include_external, file)
    }
}

} // verus!
