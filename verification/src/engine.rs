//! The traversal in executable form. Every function here does what its
//! counterpart in `traversal` says.
//!
//! A caller answers the steps in turn until the last:
//!
//! ```text
//! let mut step = parser.parse(file, &language);
//! loop {
//!     step = match step {
//!         Step::Read(request) => { let text = read(request.path()); request.resume(text) }
//!         Step::Probe(request) => { let there = exists(request.path()); request.resume(there) }
//!         Step::Canonicalize(request) => {
//!             let canonical = canonicalize(request.path());
//!             request.resume(canonical)
//!         }
//!         Step::Done(result) => return result,
//!     };
//! }
//! ```
//!
//! Failures of the file system are passed in as messages; the traversal
//! decides what they mean.

use crate::language::{Dependency, DependencyView, LanguageKind, Plan, Search};
use crate::parsers::{AgdaParser, HaskellParser, TypeScriptParser};
use crate::text::{join_text, text_view, texts_view};
use crate::traversal::{
    advance,
    after_canonicalize,
    after_extract,
    after_probe,
    after_read,
    begin,
    lemma_after_canonicalize_inv,
    lemma_after_extract_inv,
    lemma_after_probe_inv,
    lemma_after_read_inv,
    lemma_begin_inv,
    lemma_note_wf,
    lemma_visit_wf,
    look,
    spec_extract,
    spec_plan,
    CanonicalizeView,
    FrameView,
    ProbeView,
    ReadView,
    Scan,
    StepView,
};
use vstd::prelude::*;

verus! {

/// Finds the references that `content` holds, by the rule of the language.
pub fn extract(kind: LanguageKind, content: &str) -> (r: Result<Vec<String>, String>)
    ensures
        texts_view(r) == spec_extract(kind, content@),
{
    match kind {
        LanguageKind::Agda => AgdaParser.extract(content),
        LanguageKind::Haskell => HaskellParser.extract(content),
        LanguageKind::TypeScript => TypeScriptParser.extract(content),
    }
}

/// Decides what becomes of `reference`, found in `file`, by the rule of the
/// language.
pub fn plan(kind: LanguageKind, file: &str, reference: &str) -> (r: Plan)
    ensures
        r@ == spec_plan(kind, file@, reference@),
{
    match kind {
        LanguageKind::Agda => AgdaParser.plan(file, reference),
        LanguageKind::Haskell => HaskellParser.plan(file, reference),
        LanguageKind::TypeScript => TypeScriptParser.plan(file, reference),
    }
}

/// Whether `texts` holds `text`.
pub fn holds_text(texts: &Vec<String>, text: &String) -> (r: bool)
    ensures
        r == texts.deep_view().contains(text@),
{
    let mut i: usize = 0;
    while i < texts.len()
        invariant
            i <= texts.len(),
            forall|j: int| 0 <= j < i ==> texts.deep_view()[j] != text@,
        decreases texts.len() - i,
    {
        proof {
            assert(texts.deep_view()[i as int] == texts[i as int]@);
        }
        if texts[i] == *text {
            return true;
        }
        i = i + 1;
    }
    false
}

/// Whether `found` holds `dependency`.
pub fn holds_dependency(found: &Vec<Dependency>, dependency: &Dependency) -> (r: bool)
    ensures
        r == found.deep_view().contains(dependency@),
{
    let mut i: usize = 0;
    while i < found.len()
        invariant
            i <= found.len(),
            forall|j: int| 0 <= j < i ==> found.deep_view()[j] != dependency@,
        decreases found.len() - i,
    {
        proof {
            assert(found.deep_view()[i as int] == found[i as int]@);
        }
        if found[i] == *dependency {
            return true;
        }
        i = i + 1;
    }
    false
}

/// A file whose references are being followed: those from `next` on are
/// pending.
struct Frame {
    file: String,
    references: Vec<String>,
    next: usize,
}

impl View for Frame {
    type V = FrameView;

    closed spec fn view(&self) -> FrameView {
        FrameView {
            file: self.file@,
            pending: if self.next <= self.references.len() {
                self.references.deep_view().skip(self.next as int)
            } else {
                Seq::empty()
            },
        }
    }
}

impl DeepView for Frame {
    type V = FrameView;

    closed spec fn deep_view(&self) -> FrameView {
        self@
    }
}

/// The state of a traversal between two requests.
pub struct Traversal {
    kind: LanguageKind,
    include_external: bool,
    visited: Vec<String>,
    found: Vec<Dependency>,
    stack: Vec<Frame>,
}

impl View for Traversal {
    type V = Scan;

    closed spec fn view(&self) -> Scan {
        Scan {
            kind: self.kind,
            include_external: self.include_external,
            visited: self.visited.deep_view(),
            found: self.found.deep_view(),
            stack: self.stack.deep_view(),
        }
    }
}

impl Traversal {
    #[verifier::type_invariant]
    spec fn well_formed(self) -> bool {
        self@.wf()
    }

    /// Notes `dependency` among what was found.
    fn note(self, dependency: Dependency) -> (r: Traversal)
        requires
            dependency@ is External ==> self@.include_external,
            dependency@ matches DependencyView::Local(path) ==> self@.visited.contains(path),
        ensures
            r@ == self@.note(dependency@),
    {
        proof {
            use_type_invariant(&self);
            lemma_note_wf(self@, dependency@);
        }
        if holds_dependency(&self.found, &dependency) {
            self
        } else {
            let Traversal { kind, include_external, visited, found, stack } = self;
            let mut found = found;
            let ghost before = found.deep_view();
            found.push(dependency);
            proof {
                assert(found.deep_view() =~= before.push(dependency@));
            }
            Traversal { kind, include_external, visited, found, stack }
        }
    }

    /// Notes `reference` as external, if external dependencies are wanted.
    fn note_external(self, reference: String) -> (r: Traversal)
        ensures
            r@ == self@.note_external(reference@),
    {
        if self.include_external {
            self.note(Dependency::External(reference))
        } else {
            self
        }
    }

    /// Notes the file `path` as a local dependency and enters it.
    fn discover(self, path: &String) -> (r: Traversal)
        requires
            !self@.visited.contains(path@),
        ensures
            r@ == self@.note(DependencyView::Local(path@)).visit(path@),
    {
        proof {
            use_type_invariant(&self);
            lemma_visit_wf(self@, path@);
        }
        let local = Dependency::Local(path.clone());
        let known: bool = holds_dependency(&self.found, &local);
        let Traversal { kind, include_external, visited, found, stack } = self;
        let mut found = found;
        let mut visited = visited;
        let ghost found_before = found.deep_view();
        let ghost visited_before = visited.deep_view();
        if !known {
            found.push(local);
            proof {
                assert(found.deep_view() =~= found_before.push(local@));
            }
        }
        visited.push(path.clone());
        proof {
            assert(visited.deep_view() =~= visited_before.push(path@));
        }
        Traversal { kind, include_external, visited, found, stack }
    }

    /// Enters `file`, whose references are `references`.
    fn enter(self, file: String, references: Vec<String>) -> (r: Traversal)
        requires
            self@.visited.contains(file@),
        ensures
            r@ == self@.enter(file@, references.deep_view()),
    {
        proof {
            use_type_invariant(&self);
        }
        let Traversal { kind, include_external, visited, found, stack } = self;
        let mut stack = stack;
        let ghost before = stack.deep_view();
        let frame = Frame { file, references, next: 0 };
        proof {
            assert(frame@.pending =~= references.deep_view());
        }
        stack.push(frame);
        proof {
            assert(stack.deep_view() =~= before.push(frame@));
            assert forall|i: int| 0 <= i < stack.len() implies visited.deep_view().contains(
                (#[trigger] stack.deep_view()[i]).file,
            ) by {
                if i < before.len() {
                    assert(stack.deep_view()[i] == before[i]);
                }
            }
        }
        Traversal { kind, include_external, visited, found, stack }
    }

    /// Starts the traversal at `file`: the file is entered, and its text is
    /// asked for.
    pub fn begin(kind: LanguageKind, include_external: bool, file: &str) -> (step: Step)
        ensures
            step@ == begin(kind, include_external, file@),
            step@.inv(kind, include_external),
    {
        proof {
            lemma_begin_inv(kind, include_external, file@);
        }
        let mut visited: Vec<String> = Vec::new();
        visited.push(file.to_owned());
        let found: Vec<Dependency> = Vec::new();
        let stack: Vec<Frame> = Vec::new();
        proof {
            assert(visited.deep_view() =~= seq![file@]);
            assert(found.deep_view() =~= Seq::<DependencyView>::empty());
            assert(stack.deep_view() =~= Seq::<FrameView>::empty());
        }
        let state = Traversal { kind, include_external, visited, found, stack };
        Step::Read(ReadRequest { state, path: file.to_owned() })
    }

    /// Takes up the pending references of the innermost file, one after the
    /// other, until one of them needs an answer from outside or none is left.
    fn advance(self) -> (step: Step)
        ensures
            step@ == advance(self@),
    {
        let mut state: Traversal = self;
        loop
            invariant
                advance(state@) == advance(self@),
            decreases state@.stack.len(), state@.pending(),
        {
            proof {
                use_type_invariant(&state);
            }
            let ghost current = state@;
            let Traversal { kind, include_external, visited, found, stack } = state;
            let mut stack = stack;
            if stack.len() == 0 {
                return Step::Done(Ok(found));
            }
            let ghost before = stack.deep_view();
            let top: Frame = stack.pop().unwrap();
            proof {
                assert(stack.deep_view() =~= before.drop_last());
                assert(before.last() == top@);
                assert forall|i: int| 0 <= i < stack.len() implies visited.deep_view().contains(
                    (#[trigger] stack.deep_view()[i]).file,
                ) by {
                    assert(stack.deep_view()[i] == before[i]);
                }
            }
            if top.next >= top.references.len() {
                state = Traversal { kind, include_external, visited, found, stack };
                assert(state@ == current.leave());
                continue ;
            }
            let reference: String = top.references[top.next].clone();
            let plan: Plan = plan(kind, top.file.as_str(), reference.as_str());
            let rest = Frame { file: top.file, references: top.references, next: top.next + 1 };
            proof {
                assert(top@.pending[0] == reference@);
                assert(rest@.pending =~= top@.pending.drop_first());
                assert(rest@.file == top@.file);
            }
            let ghost popped = stack.deep_view();
            stack.push(rest);
            proof {
                assert(stack.deep_view() =~= popped.push(rest@));
                assert forall|i: int| 0 <= i < stack.len() implies visited.deep_view().contains(
                    (#[trigger] stack.deep_view()[i]).file,
                ) by {
                    assert(stack.deep_view()[i].file == before[i].file);
                }
            }
            let consumed = Traversal { kind, include_external, visited, found, stack };
            assert(consumed@ == current.consume());
            match plan {
                Plan::External => {
                    state = consumed.note_external(reference);
                },
                Plan::Fail(message) => {
                    return Step::Done(Err(message));
                },
                Plan::Resolve(search) => {
                    proof {
                        assert(remaining(search, 0) =~= search@.candidates);
                    }
                    match consumed.look(reference, search, 0) {
                        Ok(step) => {
                            return step;
                        },
                        Err((unchanged, missed)) => {
                            state = unchanged.note_external(missed);
                        },
                    }
                },
            }
        }
    }

    /// Continues the search for the file behind `reference` with the
    /// candidates of `search` from position `next` on. Comes back with the
    /// next request, or, when the search is over without a file, with the
    /// state and the reference as they were given.
    fn look(self, reference: String, search: Search, next: usize) -> (r: Result<
        Step,
        (Traversal, String),
    >)
        ensures
            match r {
                Ok(step) => {
                    &&& step@ == look(
                        self@,
                        reference@,
                        remaining(search, next),
                        search@.fallback,
                        search@.strict,
                    )
                    &&& remaining(search, next).len() > 0 || search@.fallback is Some
                },
                Err((state, missed)) => {
                    &&& state@ == self@
                    &&& missed@ == reference@
                    &&& remaining(search, next).len() == 0
                    &&& search@.fallback is None
                },
            },
    {
        if next < search.candidates.len() {
            let path: String = search.candidates[next].clone();
            proof {
                assert(remaining(search, next)[0] == path@);
                assert(remaining(search, next).drop_first() =~= remaining(
                    search,
                    (next + 1) as usize,
                ));
            }
            Ok(Step::Probe(ProbeRequest { state: self, reference, path, search, next: next + 1 }))
        } else {
            proof {
                assert(remaining(search, next).len() == 0);
            }
            let Search { candidates, fallback, strict } = search;
            match fallback {
                Some(path) => Ok(
                    Step::Canonicalize(
                        CanonicalizeRequest { state: self, reference, path, strict },
                    ),
                ),
                None => Err((self, reference)),
            }
        }
    }
}

/// The candidates of `search` from position `next` on.
pub open spec fn remaining(search: Search, next: usize) -> Seq<Seq<char>> {
    if next <= search.candidates.len() {
        search.candidates.deep_view().skip(next as int)
    } else {
        Seq::empty()
    }
}

/// A request for the text of a file.
pub struct ReadRequest {
    state: Traversal,
    path: String,
}

/// A request to say whether a path exists.
pub struct ProbeRequest {
    state: Traversal,
    reference: String,
    path: String,
    search: Search,
    next: usize,
}

/// A request for the canonical form of a path.
pub struct CanonicalizeRequest {
    state: Traversal,
    reference: String,
    path: String,
    strict: bool,
}

/// One step of a traversal: a request to answer, or the end.
pub enum Step {
    /// The text of a file is wanted.
    Read(ReadRequest),
    /// It is to be said whether a path exists.
    Probe(ProbeRequest),
    /// The canonical form of a path is wanted.
    Canonicalize(CanonicalizeRequest),
    /// The traversal is over: these are the dependencies, or this is why
    /// there are none.
    Done(Result<Vec<Dependency>, String>),
}

impl ReadRequest {
    #[verifier::type_invariant]
    spec fn well_formed(self) -> bool {
        self.path@ == self.state@.visited.last()
    }

    /// The file whose text is wanted.
    pub fn path(&self) -> (path: &str)
        ensures
            path@ == self@.path,
    {
        self.path.as_str()
    }

    /// Goes on with the text of the file, or with the reason why it could
    /// not be read.
    pub fn resume(self, answer: Result<String, String>) -> (step: Step)
        ensures
            step@ == after_read(self@, text_view(answer)),
            step@.inv(self@.state.kind, self@.state.include_external),
    {
        proof {
            use_type_invariant(&self);
            use_type_invariant(&self.state);
            lemma_after_read_inv(
                self@,
                text_view(answer),
                self@.state.kind,
                self@.state.include_external,
            );
        }
        match answer {
            Ok(content) => match extract(self.state.kind, content.as_str()) {
                Ok(references) => self.enter(references),
                Err(message) => Step::Done(Err(message)),
            },
            Err(reason) => Step::Done(
                Err(join_text("Failed to read file: ", reason.as_str())),
            ),
        }
    }

    /// Goes on with the references that were found in the file.
    pub fn enter(self, references: Vec<String>) -> (step: Step)
        ensures
            step@ == after_extract(self@, references.deep_view()),
            step@.inv(self@.state.kind, self@.state.include_external),
    {
        proof {
            use_type_invariant(&self);
            use_type_invariant(&self.state);
            lemma_after_extract_inv(
                self@,
                references.deep_view(),
                self@.state.kind,
                self@.state.include_external,
            );
            assert(self@.state.visited[self@.state.visited.len() - 1] == self@.path);
        }
        let ReadRequest { state, path } = self;
        state.enter(path, references).advance()
    }
}

impl ProbeRequest {
    /// The path in question.
    pub fn path(&self) -> (path: &str)
        ensures
            path@ == self@.path,
    {
        self.path.as_str()
    }

    /// Goes on with the answer: whether the path exists.
    pub fn resume(self, present: bool) -> (step: Step)
        ensures
            step@ == after_probe(self@, present),
            step@.inv(self@.state.kind, self@.state.include_external),
    {
        proof {
            use_type_invariant(&self.state);
            lemma_after_probe_inv(
                self@,
                present,
                self@.state.kind,
                self@.state.include_external,
            );
        }
        let ProbeRequest { state, reference, path, search, next } = self;
        if present {
            let strict: bool = search.strict;
            Step::Canonicalize(CanonicalizeRequest { state, reference, path, strict })
        } else {
            match state.look(reference, search, next) {
                Ok(step) => step,
                Err((unchanged, missed)) => unchanged.note_external(missed).advance(),
            }
        }
    }
}

impl CanonicalizeRequest {
    /// The path whose canonical form is wanted.
    pub fn path(&self) -> (path: &str)
        ensures
            path@ == self@.path,
    {
        self.path.as_str()
    }

    /// Goes on with the canonical form of the path, or with the reason why
    /// it has none.
    pub fn resume(self, answer: Result<String, String>) -> (step: Step)
        ensures
            step@ == after_canonicalize(self@, text_view(answer)),
            step@.inv(self@.state.kind, self@.state.include_external),
    {
        proof {
            use_type_invariant(&self.state);
            lemma_after_canonicalize_inv(
                self@,
                text_view(answer),
                self@.state.kind,
                self@.state.include_external,
            );
        }
        let CanonicalizeRequest { state, reference, path: _, strict } = self;
        match answer {
            Ok(path) => {
                if holds_text(&state.visited, &path) {
                    state.note(Dependency::Local(path)).advance()
                } else {
                    let entered: Traversal = state.discover(&path);
                    proof {
                        lemma_visit_wf(state@, path@);
                    }
                    Step::Read(ReadRequest { state: entered, path })
                }
            },
            Err(reason) => {
                if strict {
                    Step::Done(Err(join_text("Failed to resolve path: ", reason.as_str())))
                } else {
                    state.note_external(reference).advance()
                }
            },
        }
    }
}

impl View for ReadRequest {
    type V = ReadView;

    closed spec fn view(&self) -> ReadView {
        ReadView { state: self.state@, path: self.path@ }
    }
}

impl View for ProbeRequest {
    type V = ProbeView;

    closed spec fn view(&self) -> ProbeView {
        ProbeView {
            state: self.state@,
            reference: self.reference@,
            path: self.path@,
            later: remaining(self.search, self.next),
            fallback: self.search@.fallback,
            strict: self.search@.strict,
        }
    }
}

impl View for CanonicalizeRequest {
    type V = CanonicalizeView;

    closed spec fn view(&self) -> CanonicalizeView {
        CanonicalizeView {
            state: self.state@,
            reference: self.reference@,
            path: self.path@,
            strict: self.strict,
        }
    }
}

impl View for Step {
    type V = StepView;

    open spec fn view(&self) -> StepView {
        match self {
            Step::Read(req) => StepView::Read(req@),
            Step::Probe(req) => StepView::Probe(req@),
            Step::Canonicalize(req) => StepView::Canonicalize(req@),
            Step::Done(Ok(found)) => StepView::Done(Ok(found.deep_view())),
            Step::Done(Err(message)) => StepView::Done(Err(message@)),
        }
    }
}

} // verus!
