//! Haskell: `import [qualified] Some.Module` at the start of a line.

use crate::engine::{Step, Traversal};
use crate::language::{
    DependencyParser,
    Language,
    LanguageKind,
    Plan,
    PlanView,
    Search,
    SearchView,
};
use crate::paths::{directories, enclosing_dirs, join, path_join};
use crate::pattern::{find_references, references_of};
use crate::text::{join_text, pieces, split_text, texts_view};
use vstd::prelude::*;

verus! {

/// The parser for Haskell sources.
pub struct HaskellParser;

/// An import statement at the start of a line; its second group is the
/// module's dotted name, its first the optional qualifier.
pub const IMPORT_PATTERN: &'static str = r"(?m)^\s*import\s+(qualified\s+)?([\w.]+)";

/// What a module's name is followed by in the name of its file.
pub const FILE_SUFFIX: &'static str = ".hs";

/// The file of a module kept flat in `dir`: the dotted name as one file name.
pub open spec fn flat_file(dir: Seq<char>, import_path: Seq<char>) -> Seq<char> {
    path_join(dir, import_path + FILE_SUFFIX@)
}

/// The file of a module kept in a tree under `dir`: one directory per
/// segment, the last segment being the file's name.
pub open spec fn nested_file(dir: Seq<char>, segments: Seq<Seq<char>>) -> Seq<char>
    decreases segments.len(),
{
    if segments.len() == 0 {
        dir
    } else if segments.len() == 1 {
        path_join(dir, segments[0] + FILE_SUFFIX@)
    } else {
        nested_file(path_join(dir, segments[0]), segments.drop_first())
    }
}

/// The places where the file of module `import_path` may be, seen from the
/// directories `dirs`: two per directory, in the order of the directories,
/// the flat file before the nested one.
pub open spec fn candidates_under(dirs: Seq<Seq<char>>, import_path: Seq<char>) -> Seq<Seq<char>> {
    Seq::new(
        2 * dirs.len(),
        |i: int|
            if i % 2 == 0 {
                flat_file(dirs[i / 2], import_path)
            } else {
                nested_file(dirs[i / 2], pieces(import_path, '.'))
            },
    )
}

/// The file of a module kept in a tree under `dir`.
pub fn nested_path(dir: &str, segments: &Vec<String>) -> (r: String)
    ensures
        r@ == nested_file(dir@, segments.deep_view()),
{
    let mut path: String = String::from_str(dir);
    let mut i: usize = 0;
    proof {
        assert(segments.deep_view().skip(0) =~= segments.deep_view());
    }
    while i < segments.len()
        invariant
            i <= segments.len(),
            nested_file(path@, segments.deep_view().skip(i as int)) == nested_file(
                dir@,
                segments.deep_view(),
            ),
        decreases segments.len() - i,
    {
        let ghost rest = segments.deep_view().skip(i as int);
        proof {
            assert(rest[0] == segments[i as int]@);
            assert(rest.drop_first() =~= segments.deep_view().skip(i + 1));
        }
        if i + 1 == segments.len() {
            let file_name: String = join_text(segments[i].as_str(), FILE_SUFFIX);
            path = join(path.as_str(), file_name.as_str());
        } else {
            path = join(path.as_str(), segments[i].as_str());
        }
        i = i + 1;
    }
    path
}

impl HaskellParser {
    /// The module names that `content` imports, in the order of the text.
    pub open spec fn spec_extract(content: Seq<char>) -> Result<Seq<Seq<char>>, Seq<char>> {
        references_of(IMPORT_PATTERN@, content, 2, 2)
    }

    /// The places where the file of module `import_path` may be, seen from
    /// `current_file`: in each directory around it, nearest first, the flat
    /// file and then the nested one.
    pub open spec fn spec_resolve_local_path(
        current_file: Seq<char>,
        import_path: Seq<char>,
    ) -> Seq<Seq<char>> {
        candidates_under(enclosing_dirs(current_file), import_path)
    }

    /// What becomes of one import: the first of its places that exists is
    /// its file; a module with no file in any of them is external, and so is
    /// one whose file cannot be made canonical.
    pub open spec fn spec_plan(current_file: Seq<char>, import_path: Seq<char>) -> PlanView {
        PlanView::Resolve(
            SearchView {
                candidates: Self::spec_resolve_local_path(current_file, import_path),
                fallback: None,
                strict: false,
            },
        )
    }

    /// Finds the module names that `content` imports.
    pub fn extract(&self, content: &str) -> (r: Result<Vec<String>, String>)
        ensures
            texts_view(r) == Self::spec_extract(content@),
    {
        find_references(IMPORT_PATTERN, content, 2, 2)
    }

    /// Lists the places where the file of module `import_path` may be, seen
    /// from `current_file`, in the order in which they are to be tried.
    pub fn resolve_local_path(&self, current_file: &str, import_path: &str) -> (r: Vec<String>)
        ensures
            r.deep_view() == Self::spec_resolve_local_path(current_file@, import_path@),
    {
        let dirs: Vec<String> = directories(current_file);
        let segments: Vec<String> = split_text(import_path, '.');
        let flat_name: String = join_text(import_path, FILE_SUFFIX);
        let mut out: Vec<String> = Vec::new();
        let mut i: usize = 0;
        proof {
            assert(out.deep_view() =~= candidates_under(dirs.deep_view().take(0), import_path@));
        }
        while i < dirs.len()
            invariant
                i <= dirs.len(),
                flat_name@ == import_path@ + FILE_SUFFIX@,
                segments.deep_view() == pieces(import_path@, '.'),
                out.deep_view() == candidates_under(dirs.deep_view().take(i as int), import_path@),
            decreases dirs.len() - i,
        {
            let ghost before = out.deep_view();
            let flat: String = join(dirs[i].as_str(), flat_name.as_str());
            let nested: String = nested_path(dirs[i].as_str(), &segments);
            out.push(flat);
            out.push(nested);
            proof {
                assert(dirs.deep_view()[i as int] == dirs[i as int]@);
                assert(out.deep_view() =~= before.push(flat@).push(nested@));
                assert(out.deep_view() =~= candidates_under(
                    dirs.deep_view().take(i + 1),
                    import_path@,
                ));
            }
            i = i + 1;
        }
        proof {
            assert(dirs.deep_view().take(dirs.len() as int) =~= dirs.deep_view());
        }
        out
    }

    /// Decides what becomes of the import of `import_path` in `current_file`.
    pub fn plan(&self, current_file: &str, import_path: &str) -> (r: Plan)
        ensures
            r@ == Self::spec_plan(current_file@, import_path@),
    {
        Plan::Resolve(
            Search {
                candidates: self.resolve_local_path(current_file, import_path),
                fallback: None,
                strict: false,
            },
        )
    }
}

impl DependencyParser for HaskellParser {
    open spec fn kind(&self) -> LanguageKind {
        LanguageKind::Haskell
    }

    fn parse(&self, file: &str, language: &Language) -> (step: Step) {
        Traversal::begin(LanguageKind::Haskell, language.include_external, file)
    }
}

} // verus!
