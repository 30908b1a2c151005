//! The traversal of an import graph, as a machine that never touches the
//! file system.
//!
//! A traversal is a chain of steps. Each step but the last asks its caller
//! for one thing: the text of a file, whether a path exists, or the
//! canonical form of a path. Answering a request gives the next step. The
//! last step carries the dependencies that were found, or the message of the
//! failure that ended the traversal.

use crate::language::{DependencyView, LanguageKind, PlanView};
use crate::parsers::{AgdaParser, HaskellParser, TypeScriptParser};
use vstd::prelude::*;

verus! {

/// The references that `content` holds, by the rule of the language.
pub open spec fn spec_extract(kind: LanguageKind, content: Seq<char>) -> Result<
    Seq<Seq<char>>,
    Seq<char>,
> {
    match kind {
        LanguageKind::Agda => AgdaParser::spec_extract(content),
        LanguageKind::Haskell => HaskellParser::spec_extract(content),
        LanguageKind::TypeScript => TypeScriptParser::spec_extract(content),
    }
}

/// Any text is tolerated. Whether the references of a file can be told
/// depends on the language alone, not on the file's text.
pub proof fn lemma_extract_tolerates(kind: LanguageKind, content: Seq<char>, other: Seq<char>)
    ensures
        spec_extract(kind, content) is Ok <==> spec_extract(kind, other) is Ok,
        spec_extract(kind, content) is Err ==> spec_extract(kind, content) == spec_extract(
            kind,
            other,
        ),
{
}

/// What becomes of `reference`, found in `file`, by the rule of the language.
pub open spec fn spec_plan(kind: LanguageKind, file: Seq<char>, reference: Seq<char>) -> PlanView {
    match kind {
        LanguageKind::Agda => AgdaParser::spec_plan(file, reference),
        LanguageKind::Haskell => HaskellParser::spec_plan(file, reference),
        LanguageKind::TypeScript => TypeScriptParser::spec_plan(file, reference),
    }
}

/// A file whose references are being followed.
pub struct FrameView {
    /// The file's path.
    pub file: Seq<char>,
    /// Those of its references that have not been followed yet.
    pub pending: Seq<Seq<char>>,
}

/// The state of a traversal between two requests.
pub struct Scan {
    pub kind: LanguageKind,
    pub include_external: bool,
    /// The files entered so far, in the order in which they were entered.
    pub visited: Seq<Seq<char>>,
    /// The dependencies found so far, in the order in which they were found.
    pub found: Seq<DependencyView>,
    /// The files whose references are being followed, the innermost last.
    pub stack: Seq<FrameView>,
}

impl Scan {
    /// What holds of every state that a traversal reaches. Nothing is
    /// entered twice and nothing is found twice. Nothing external is found
    /// unless it was asked for. The local dependencies found are files that
    /// were entered, and every file entered after the first is among them.
    /// The files whose references are being followed were entered.
    pub open spec fn wf(self) -> bool {
        &&& self.visited.len() > 0
        &&& self.visited.no_duplicates()
        &&& self.found.no_duplicates()
        &&& !self.include_external ==> forall|i: int|
            0 <= i < self.found.len() ==> self.found[i] is Local
        &&& forall|path: Seq<char>| #[trigger]
            self.found.contains(DependencyView::Local(path)) ==> self.visited.contains(path)
        &&& forall|i: int|
            1 <= i < self.visited.len() ==> self.found.contains(
                DependencyView::Local(#[trigger] self.visited[i]),
            )
        &&& forall|i: int|
            0 <= i < self.stack.len() ==> self.visited.contains((#[trigger] self.stack[i]).file)
    }

    /// The state with `dependency` among what was found.
    pub open spec fn note(self, dependency: DependencyView) -> Scan {
        if self.found.contains(dependency) {
            self
        } else {
            Scan { found: self.found.push(dependency), ..self }
        }
    }

    /// The state after `reference` turned out to be external.
    pub open spec fn note_external(self, reference: Seq<char>) -> Scan {
        if self.include_external {
            self.note(DependencyView::External(reference))
        } else {
            self
        }
    }

    /// The state with `file` entered.
    pub open spec fn visit(self, file: Seq<char>) -> Scan {
        Scan { visited: self.visited.push(file), ..self }
    }

    /// The state with the references of `file` to follow first.
    pub open spec fn enter(self, file: Seq<char>, references: Seq<Seq<char>>) -> Scan {
        Scan { stack: self.stack.push(FrameView { file, pending: references }), ..self }
    }

    /// The state without its innermost file.
    pub open spec fn leave(self) -> Scan {
        Scan { stack: self.stack.drop_last(), ..self }
    }

    /// The state without the first pending reference of its innermost file.
    pub open spec fn consume(self) -> Scan {
        let top = self.stack.last();
        Scan {
            stack: self.stack.drop_last().push(
                FrameView { file: top.file, pending: top.pending.drop_first() },
            ),
            ..self
        }
    }

    /// How many references of the innermost file are pending.
    pub open spec fn pending(self) -> nat {
        if self.stack.len() == 0 {
            0
        } else {
            self.stack.last().pending.len()
        }
    }
}

/// A request for the text of `path`.
pub struct ReadView {
    pub state: Scan,
    pub path: Seq<char>,
}

/// A request to say whether `path` exists. It is the candidate under test
/// in the search for the file behind `reference`; `later` are the candidates
/// still to come.
pub struct ProbeView {
    pub state: Scan,
    pub reference: Seq<char>,
    pub path: Seq<char>,
    pub later: Seq<Seq<char>>,
    pub fallback: Option<Seq<char>>,
    pub strict: bool,
}

/// A request for the canonical form of `path`, which the search for the
/// file behind `reference` settled on.
pub struct CanonicalizeView {
    pub state: Scan,
    pub reference: Seq<char>,
    pub path: Seq<char>,
    pub strict: bool,
}

/// One step of a traversal.
pub enum StepView {
    Read(ReadView),
    Probe(ProbeView),
    Canonicalize(CanonicalizeView),
    Done(Result<Seq<DependencyView>, Seq<char>>),
}

impl StepView {
    /// What holds of every step of a traversal for the language `kind` with
    /// the inclusion flag `include_external`: its state is well formed, a
    /// file whose text is asked for is the one entered last, and a result is
    /// free of repetitions and of unwanted external dependencies.
    pub open spec fn inv(self, kind: LanguageKind, include_external: bool) -> bool {
        match self {
            StepView::Read(req) => {
                &&& req.state.wf()
                &&& req.state.kind == kind
                &&& req.state.include_external == include_external
                &&& req.path == req.state.visited.last()
            },
            StepView::Probe(req) => {
                &&& req.state.wf()
                &&& req.state.kind == kind
                &&& req.state.include_external == include_external
            },
            StepView::Canonicalize(req) => {
                &&& req.state.wf()
                &&& req.state.kind == kind
                &&& req.state.include_external == include_external
            },
            StepView::Done(Ok(found)) => {
                &&& found.no_duplicates()
                &&& !include_external ==> forall|i: int|
                    0 <= i < found.len() ==> found[i] is Local
            },
            StepView::Done(Err(_)) => true,
        }
    }
}

/// The first step of the traversal that starts at `file`: the file is
/// entered, and its text is asked for.
pub open spec fn begin(kind: LanguageKind, include_external: bool, file: Seq<char>) -> StepView {
    StepView::Read(
        ReadView {
            state: Scan {
                kind,
                include_external,
                visited: seq![file],
                found: seq![],
                stack: seq![],
            },
            path: file,
        },
    )
}

/// The step that follows from state `s` when nothing is being asked:
/// the next pending reference of the innermost file is taken up; a file
/// with none left is left; with no file left the traversal is done.
pub open spec fn advance(s: Scan) -> StepView
    decreases s.stack.len(), s.pending(), 0nat,
{
    if s.stack.len() == 0 {
        StepView::Done(Ok(s.found))
    } else {
        let top = s.stack.last();
        if top.pending.len() == 0 {
            advance(s.leave())
        } else {
            let reference = top.pending[0];
            match spec_plan(s.kind, top.file, reference) {
                PlanView::External => advance(s.consume().note_external(reference)),
                PlanView::Fail(message) => StepView::Done(Err(message)),
                PlanView::Resolve(search) => look(
                    s.consume(),
                    reference,
                    search.candidates,
                    search.fallback,
                    search.strict,
                ),
            }
        }
    }
}

/// The step that continues the search for the file behind `reference` with
/// the candidates `remaining`: the first of them is put to the test; with
/// none left the fallback is taken; with no fallback the reference is
/// external.
pub open spec fn look(
    s: Scan,
    reference: Seq<char>,
    remaining: Seq<Seq<char>>,
    fallback: Option<Seq<char>>,
    strict: bool,
) -> StepView
    decreases s.stack.len(), s.pending(), 1nat,
{
    if remaining.len() > 0 {
        StepView::Probe(
            ProbeView {
                state: s,
                reference,
                path: remaining[0],
                later: remaining.drop_first(),
                fallback,
                strict,
            },
        )
    } else {
        match fallback {
            Some(path) => StepView::Canonicalize(
                CanonicalizeView { state: s, reference, path, strict },
            ),
            None => advance(s.note_external(reference)),
        }
    }
}

/// The step that follows when the file that was asked for has the
/// references `references`.
pub open spec fn after_extract(req: ReadView, references: Seq<Seq<char>>) -> StepView {
    advance(req.state.enter(req.path, references))
}

/// The step that follows the answer to a request for a file's text. A file
/// that cannot be read ends the traversal, and so does a pattern that cannot
/// be used.
pub open spec fn after_read(req: ReadView, answer: Result<Seq<char>, Seq<char>>) -> StepView {
    match answer {
        Ok(content) => match spec_extract(req.state.kind, content) {
            Ok(references) => after_extract(req, references),
            Err(message) => StepView::Done(Err(message)),
        },
        Err(reason) => StepView::Done(Err("Failed to read file: "@ + reason)),
    }
}

/// The step that follows the answer to a question of existence: a path that
/// exists is the file, and its canonical form is asked for; otherwise the
/// search goes on.
pub open spec fn after_probe(req: ProbeView, present: bool) -> StepView {
    if present {
        StepView::Canonicalize(
            CanonicalizeView {
                state: req.state,
                reference: req.reference,
                path: req.path,
                strict: req.strict,
            },
        )
    } else {
        look(req.state, req.reference, req.later, req.fallback, req.strict)
    }
}

/// The step that follows the answer to a request for a canonical path. The
/// canonical path is a local dependency; unless it was entered before, it is
/// entered and its text is asked for. A path without a canonical form ends a
/// strict search in failure, and makes the reference external otherwise.
pub open spec fn after_canonicalize(
    req: CanonicalizeView,
    answer: Result<Seq<char>, Seq<char>>,
) -> StepView {
    match answer {
        Ok(path) => {
            let s = req.state.note(DependencyView::Local(path));
            if s.visited.contains(path) {
                advance(s)
            } else {
                StepView::Read(ReadView { state: s.visit(path), path })
            }
        },
        Err(reason) => if req.strict {
            StepView::Done(Err("Failed to resolve path: "@ + reason))
        } else {
            advance(req.state.note_external(req.reference))
        },
    }
}

/// Noting a dependency keeps a state well formed, if the dependency is one
/// that may be found in it.
pub proof fn lemma_note_wf(s: Scan, dependency: DependencyView)
    requires
        s.wf(),
        dependency is External ==> s.include_external,
        dependency matches DependencyView::Local(path) ==> s.visited.contains(path),
    ensures
        s.note(dependency).wf(),
        s.note(dependency).found.contains(dependency),
        forall|d: DependencyView| s.found.contains(d) ==> s.note(dependency).found.contains(d),
{
    let after = s.note(dependency);
    if !s.found.contains(dependency) {
        assert(after.found.last() == dependency);
        assert forall|d: DependencyView| s.found.contains(d) implies after.found.contains(d) by {
            let i = choose|i: int| 0 <= i < s.found.len() && s.found[i] == d;
            assert(after.found[i] == d);
        }
        assert forall|path: Seq<char>| #[trigger]
            after.found.contains(DependencyView::Local(path)) implies after.visited.contains(
            path,
        ) by {
            let d = DependencyView::Local(path);
            let i = choose|i: int| 0 <= i < after.found.len() && after.found[i] == d;
            if i < s.found.len() {
                assert(s.found[i] == d);
                assert(s.found.contains(d));
            }
        }
    }
}

/// Entering a file that was just found keeps a state well formed.
pub proof fn lemma_visit_wf(s: Scan, path: Seq<char>)
    requires
        s.wf(),
        !s.visited.contains(path),
    ensures
        s.note(DependencyView::Local(path)).visit(path).wf(),
        s.note(DependencyView::Local(path)).visit(path).visited.last() == path,
{
    let local = DependencyView::Local(path);
    let noted = s.note(local);
    let after = noted.visit(path);
    assert(noted.found.contains(local) && forall|d: DependencyView|
        s.found.contains(d) ==> noted.found.contains(d)) by {
        if !s.found.contains(local) {
            assert(noted.found.last() == local);
            assert forall|d: DependencyView| s.found.contains(d) implies noted.found.contains(
                d,
            ) by {
                let i = choose|i: int| 0 <= i < s.found.len() && s.found[i] == d;
                assert(noted.found[i] == d);
            }
        }
    }
    assert(after.visited.last() == path);
    assert forall|p: Seq<char>| s.visited.contains(p) implies after.visited.contains(p) by {
        let i = choose|i: int| 0 <= i < s.visited.len() && s.visited[i] == p;
        assert(after.visited[i] == p);
    }
    assert forall|i: int| 0 <= i < after.stack.len() implies after.visited.contains(
        (#[trigger] after.stack[i]).file,
    ) by {
        assert(s.visited.contains(s.stack[i].file));
    }
    assert forall|i: int| 1 <= i < after.visited.len() implies after.found.contains(
        DependencyView::Local(#[trigger] after.visited[i]),
    ) by {
        if i < s.visited.len() {
            assert(after.visited[i] == s.visited[i]);
            assert(s.found.contains(DependencyView::Local(s.visited[i])));
        }
    }
    assert forall|p: Seq<char>| #[trigger]
        after.found.contains(DependencyView::Local(p)) implies after.visited.contains(p) by {
        let d = DependencyView::Local(p);
        let i = choose|i: int| 0 <= i < noted.found.len() && noted.found[i] == d;
        if i < s.found.len() {
            assert(s.found[i] == d);
            assert(s.found.contains(d));
        }
    }
    assert(!after.include_external ==> forall|i: int|
        0 <= i < after.found.len() ==> after.found[i] is Local);
}

/// The step that `advance` gives for a well-formed state is of the same
/// traversal.
pub proof fn lemma_advance_inv(s: Scan)
    requires
        s.wf(),
    ensures
        advance(s).inv(s.kind, s.include_external),
    decreases s.stack.len(), s.pending(), 0nat,
{
    if s.stack.len() > 0 {
        let top = s.stack.last();
        if top.pending.len() == 0 {
            lemma_advance_inv(s.leave());
        } else {
            let reference = top.pending[0];
            let rest = s.consume();
            assert(rest.wf()) by {
                assert forall|i: int| 0 <= i < rest.stack.len() implies rest.visited.contains(
                    (#[trigger] rest.stack[i]).file,
                ) by {
                    assert(rest.stack[i].file == s.stack[i].file);
                }
            }
            match spec_plan(s.kind, top.file, reference) {
                PlanView::External => {
                    if rest.include_external {
                        lemma_note_wf(rest, DependencyView::External(reference));
                    }
                    lemma_advance_inv(rest.note_external(reference));
                },
                PlanView::Fail(message) => {},
                PlanView::Resolve(search) => {
                    lemma_look_inv(
                        rest,
                        reference,
                        search.candidates,
                        search.fallback,
                        search.strict,
                    );
                },
            }
        }
    }
}

/// The step that `look` gives for a well-formed state is of the same
/// traversal.
pub proof fn lemma_look_inv(
    s: Scan,
    reference: Seq<char>,
    remaining: Seq<Seq<char>>,
    fallback: Option<Seq<char>>,
    strict: bool,
)
    requires
        s.wf(),
    ensures
        look(s, reference, remaining, fallback, strict).inv(s.kind, s.include_external),
    decreases s.stack.len(), s.pending(), 1nat,
{
    if remaining.len() == 0 && fallback is None {
        if s.include_external {
            lemma_note_wf(s, DependencyView::External(reference));
        }
        lemma_advance_inv(s.note_external(reference));
    }
}

/// The first step of a traversal is a step of that traversal.
pub proof fn lemma_begin_inv(kind: LanguageKind, include_external: bool, file: Seq<char>)
    ensures
        begin(kind, include_external, file).inv(kind, include_external),
{
    let step = begin(kind, include_external, file);
    assert(step matches StepView::Read(req) && req.state.visited[0] == file);
}

/// Entering the file that was asked for leads to a step of the same
/// traversal.
pub proof fn lemma_after_extract_inv(
    req: ReadView,
    references: Seq<Seq<char>>,
    kind: LanguageKind,
    include_external: bool,
)
    requires
        StepView::Read(req).inv(kind, include_external),
    ensures
        after_extract(req, references).inv(kind, include_external),
{
    let s = req.state.enter(req.path, references);
    assert(s.wf()) by {
        assert(req.state.visited[req.state.visited.len() - 1] == req.path);
        assert forall|i: int| 0 <= i < s.stack.len() implies s.visited.contains(
            (#[trigger] s.stack[i]).file,
        ) by {
            if i < req.state.stack.len() {
                assert(s.stack[i] == req.state.stack[i]);
            }
        }
    }
    lemma_advance_inv(s);
}

/// Answering a request for a file's text leads to a step of the same
/// traversal.
pub proof fn lemma_after_read_inv(
    req: ReadView,
    answer: Result<Seq<char>, Seq<char>>,
    kind: LanguageKind,
    include_external: bool,
)
    requires
        StepView::Read(req).inv(kind, include_external),
    ensures
        after_read(req, answer).inv(kind, include_external),
{
    if let Ok(content) = answer {
        if let Ok(references) = spec_extract(req.state.kind, content) {
            lemma_after_extract_inv(req, references, kind, include_external);
        }
    }
}

/// Answering a question of existence leads to a step of the same traversal.
pub proof fn lemma_after_probe_inv(
    req: ProbeView,
    present: bool,
    kind: LanguageKind,
    include_external: bool,
)
    requires
        StepView::Probe(req).inv(kind, include_external),
    ensures
        after_probe(req, present).inv(kind, include_external),
{
    if !present {
        lemma_look_inv(req.state, req.reference, req.later, req.fallback, req.strict);
    }
}

/// Answering a request for a canonical path leads to a step of the same
/// traversal.
pub proof fn lemma_after_canonicalize_inv(
    req: CanonicalizeView,
    answer: Result<Seq<char>, Seq<char>>,
    kind: LanguageKind,
    include_external: bool,
)
    requires
        StepView::Canonicalize(req).inv(kind, include_external),
    ensures
        after_canonicalize(req, answer).inv(kind, include_external),
{
    match answer {
        Ok(path) => {
            let local = DependencyView::Local(path);
            if req.state.visited.contains(path) {
                lemma_note_wf(req.state, local);
                lemma_advance_inv(req.state.note(local));
            } else {
                lemma_visit_wf(req.state, path);
            }
        },
        Err(reason) => {
            if !req.strict {
                if req.state.include_external {
                    lemma_note_wf(req.state, DependencyView::External(req.reference));
                }
                lemma_advance_inv(req.state.note_external(req.reference));
            }
        },
    }
}

} // verus!
