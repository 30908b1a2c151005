//! What a traversal finds, stated against the import graph of a world.
//!
//! A world gives every file its references and every reference its fate.
//! That makes a graph, and the result of a traversal can be held against it:
//! it holds the files that can be reached from the entry file, the external
//! names met on the way, and nothing else.

use crate::language::{DependencyView, LanguageKind, PlanView};
use crate::parsers::haskell::{candidates_under, flat_file, nested_file};
use crate::parsers::typescript::extension_candidates;
use crate::parsers::{HaskellParser, TypeScriptParser};
use crate::paths::{enclosing_dirs, parent_dir, path_extension, path_join};
use crate::text::pieces;
use crate::traversal::{
    advance,
    begin,
    lemma_begin_inv,
    lemma_note_wf,
    lemma_visit_wf,
    look,
    spec_extract,
    spec_plan,
    FrameView,
    Scan,
    StepView,
};
use crate::world::{
    answer,
    confined,
    lemma_first_present_at,
    lemma_nothing_twice,
    lemma_traversal_ends,
    run,
    target,
    traverse,
    World,
};
use vstd::prelude::*;

verus! {

/// One analysis: a world, a language, the inclusion flag and an entry file.
pub struct Task {
    pub world: World,
    pub kind: LanguageKind,
    pub include_external: bool,
    pub entry: Seq<char>,
}

/// What becomes of a reference.
pub enum Fate {
    /// It is the file with this canonical path.
    Local(Seq<char>),
    /// It names something outside the tree.
    External,
    /// It cannot be resolved, and the analysis fails with this message.
    Fatal(Seq<char>),
}

/// What becomes of a reference whose search settled on `path`.
pub open spec fn fate_of_path(w: World, path: Seq<char>, strict: bool) -> Fate {
    match (w.canonical)(path) {
        Ok(canonical) => Fate::Local(canonical),
        Err(reason) => if strict {
            Fate::Fatal("Failed to resolve path: "@ + reason)
        } else {
            Fate::External
        },
    }
}

/// What becomes of a reference that is searched for among `candidates`.
pub open spec fn fate_of_search(
    w: World,
    candidates: Seq<Seq<char>>,
    fallback: Option<Seq<char>>,
    strict: bool,
) -> Fate {
    match target(w, candidates, fallback) {
        Some(path) => fate_of_path(w, path, strict),
        None => Fate::External,
    }
}

/// What becomes of `reference`, found in `file`.
pub open spec fn fate(t: Task, file: Seq<char>, reference: Seq<char>) -> Fate {
    match spec_plan(t.kind, file, reference) {
        PlanView::External => Fate::External,
        PlanView::Fail(message) => Fate::Fatal(message),
        PlanView::Resolve(search) => fate_of_search(
            t.world,
            search.candidates,
            search.fallback,
            search.strict,
        ),
    }
}

/// The references of `file`, or the message of the failure to get them.
pub open spec fn references(t: Task, file: Seq<char>) -> Result<Seq<Seq<char>>, Seq<char>> {
    match (t.world.text)(file) {
        Ok(content) => spec_extract(t.kind, content),
        Err(reason) => Err("Failed to read file: "@ + reason),
    }
}

/// Whether `file` imports the file `imported`.
pub open spec fn imports(t: Task, file: Seq<char>, imported: Seq<char>) -> bool {
    references(t, file) matches Ok(refs) && exists|i: int|
        0 <= i < refs.len() && fate(t, file, #[trigger] refs[i]) == Fate::Local(imported)
}

/// Whether `file` refers to something external under the name `name`.
pub open spec fn names(t: Task, file: Seq<char>, name: Seq<char>) -> bool {
    references(t, file) matches Ok(refs) && exists|i: int|
        0 <= i < refs.len() && #[trigger] refs[i] == name && fate(t, file, name) == Fate::External
}

/// Whether each file of `chain` imports the next.
pub open spec fn is_chain(t: Task, chain: Seq<Seq<char>>) -> bool {
    forall|i: int| 0 <= i < chain.len() - 1 ==> imports(t, #[trigger] chain[i], chain[i + 1])
}

/// Whether `file` can be reached from the entry file by one import or more.
pub open spec fn reachable(t: Task, file: Seq<char>) -> bool {
    exists|chain: Seq<Seq<char>>|
        #![auto]
        is_chain(t, chain) && chain.len() >= 2 && chain[0] == t.entry && chain.last() == file
}

/// Whether `file` is the entry file or can be reached from it.
pub open spec fn in_scope(t: Task, file: Seq<char>) -> bool {
    file == t.entry || reachable(t, file)
}

/// Whether `dependency` is one of the entry file: a file that can be reached
/// from it, or, where external dependencies are wanted, a name under which a
/// file in scope refers to something external.
pub open spec fn is_dependency(t: Task, dependency: DependencyView) -> bool {
    match dependency {
        DependencyView::Local(path) => reachable(t, path),
        DependencyView::External(name) => t.include_external && exists|file: Seq<char>|
            in_scope(t, file) && #[trigger] names(t, file, name),
    }
}

/// Whether `file` can be read and every reference in it can be resolved.
pub open spec fn is_sound(t: Task, file: Seq<char>) -> bool {
    references(t, file) matches Ok(refs) && forall|i: int|
        0 <= i < refs.len() ==> !(fate(t, file, #[trigger] refs[i]) is Fatal)
}

/// Whether every file in scope can be read and every reference in it can be
/// resolved.
pub open spec fn sound_scope(t: Task) -> bool {
    forall|file: Seq<char>| #[trigger] in_scope(t, file) ==> is_sound(t, file)
}

/// Whether `file` breaks the analysis with `message`: it cannot be read, or
/// one of its references cannot be resolved, and that is what the message
/// says.
pub open spec fn breaks(t: Task, file: Seq<char>, message: Seq<char>) -> bool {
    match references(t, file) {
        Ok(refs) => exists|i: int|
            0 <= i < refs.len() && fate(t, file, #[trigger] refs[i]) == Fate::Fatal(message),
        Err(reason) => reason == message,
    }
}

/// Whether some file in scope breaks the analysis with `message`.
pub open spec fn is_failure(t: Task, message: Seq<char>) -> bool {
    exists|file: Seq<char>| in_scope(t, file) && #[trigger] breaks(t, file, message)
}

/// Whether `found` holds the dependencies of the entry file and nothing
/// else.
pub open spec fn exact(t: Task, found: Seq<DependencyView>) -> bool {
    forall|dependency: DependencyView| #[trigger]
        found.contains(dependency) <==> is_dependency(t, dependency)
}

/// A file in scope that imports another brings it into reach.
pub proof fn lemma_reach_on(t: Task, file: Seq<char>, imported: Seq<char>)
    requires
        in_scope(t, file),
        imports(t, file, imported),
    ensures
        reachable(t, imported),
{
    if file == t.entry {
        let chain = seq![t.entry, imported];
        assert(is_chain(t, chain));
        assert(chain.last() == imported);
    } else {
        let before = choose|chain: Seq<Seq<char>>|
            #![auto]
            is_chain(t, chain) && chain.len() >= 2 && chain[0] == t.entry && chain.last() == file;
        let chain = before.push(imported);
        assert forall|i: int| 0 <= i < chain.len() - 1 implies imports(
            t,
            #[trigger] chain[i],
            chain[i + 1],
        ) by {
            if i < before.len() - 1 {
                assert(imports(t, before[i], before[i + 1]));
            }
        }
        assert(chain.last() == imported);
        assert(chain[0] == t.entry);
    }
}

/// Whether the fate of `reference`, found in `file`, shows in what was
/// entered and found.
pub open spec fn settled(
    t: Task,
    visited: Seq<Seq<char>>,
    found: Seq<DependencyView>,
    file: Seq<char>,
    reference: Seq<char>,
) -> bool {
    match fate(t, file, reference) {
        Fate::Local(path) => found.contains(DependencyView::Local(path)) && visited.contains(
            path,
        ),
        Fate::External => t.include_external ==> found.contains(
            DependencyView::External(reference),
        ),
        Fate::Fatal(_) => false,
    }
}

/// Whether the first `upto` references of `file` are settled.
pub open spec fn followed(
    t: Task,
    visited: Seq<Seq<char>>,
    found: Seq<DependencyView>,
    file: Seq<char>,
    refs: Seq<Seq<char>>,
    upto: int,
) -> bool {
    forall|j: int| 0 <= j < upto ==> settled(t, visited, found, file, #[trigger] refs[j])
}

/// Whether `frame` is what is left to do of its file: its pending
/// references are the last of the file's references, and those before them
/// are settled, but for the last `in_flight` of them.
pub open spec fn frame_ok(
    t: Task,
    visited: Seq<Seq<char>>,
    found: Seq<DependencyView>,
    frame: FrameView,
    in_flight: int,
) -> bool {
    match references(t, frame.file) {
        Ok(refs) => {
            let done = refs.len() - frame.pending.len() - in_flight;
            &&& done >= 0
            &&& frame.pending == refs.skip(done + in_flight)
            &&& followed(t, visited, found, frame.file, refs, done)
        },
        Err(_) => false,
    }
}

/// The reference of `frame`'s file that comes just before the pending ones.
pub open spec fn last_taken(t: Task, frame: FrameView) -> Seq<char> {
    let refs = references(t, frame.file)->Ok_0;
    refs[refs.len() - frame.pending.len() - 1]
}

/// Whether all references of `file` are settled.
pub open spec fn complete(
    t: Task,
    visited: Seq<Seq<char>>,
    found: Seq<DependencyView>,
    file: Seq<char>,
) -> bool {
    match references(t, file) {
        Ok(refs) => followed(t, visited, found, file, refs, refs.len() as int),
        Err(_) => false,
    }
}

/// Whether `file` is among the files whose references are being followed.
pub open spec fn on_stack(stack: Seq<FrameView>, file: Seq<char>) -> bool {
    exists|i: int| 0 <= i < stack.len() && (#[trigger] stack[i]).file == file
}

/// Whether every file entered is accounted for: it is the one being read,
/// or its references are being followed, or they are all settled.
pub open spec fn covered(t: Task, s: Scan, reading: Option<Seq<char>>) -> bool {
    forall|i: int|
        0 <= i < s.visited.len() ==> {
            ||| reading == Some(#[trigger] s.visited[i])
            ||| on_stack(s.stack, s.visited[i])
            ||| complete(t, s.visited, s.found, s.visited[i])
        }
}

/// Whether everything entered is in scope and everything found is a
/// dependency.
pub open spec fn justified(t: Task, s: Scan) -> bool {
    &&& s.visited.len() > 0
    &&& s.visited[0] == t.entry
    &&& forall|i: int| 0 <= i < s.visited.len() ==> in_scope(t, #[trigger] s.visited[i])
    &&& forall|j: int| 0 <= j < s.found.len() ==> is_dependency(t, #[trigger] s.found[j])
}

/// Whether every frame is what is left to do of its file, the innermost
/// with `in_flight` references taken up but not settled.
pub open spec fn frames_ok(t: Task, s: Scan, in_flight: int) -> bool {
    forall|i: int|
        0 <= i < s.stack.len() ==> frame_ok(
            t,
            s.visited,
            s.found,
            #[trigger] s.stack[i],
            if i == s.stack.len() - 1 {
                in_flight
            } else {
                0
            },
        )
}

/// Whether `s` is a state of the analysis `t` in which the file `reading`
/// is being read, if any, and `in_flight` references of the innermost file
/// are taken up but not settled.
pub open spec fn steady(t: Task, s: Scan, reading: Option<Seq<char>>, in_flight: int) -> bool {
    &&& s.wf()
    &&& s.kind == t.kind
    &&& s.include_external == t.include_external
    &&& justified(t, s)
    &&& frames_ok(t, s, in_flight)
    &&& covered(t, s, reading)
}

/// Whether `step` is a step of the analysis `t`: its state accounts for
/// everything entered and found; a search in progress is the search for the
/// reference taken up last, as far as the world has not decided it; a result
/// is exact; and a failure is that of a file in scope.
pub open spec fn faithful(t: Task, step: StepView) -> bool {
    match step {
        StepView::Read(req) => {
            &&& steady(t, req.state, Some(req.path), 0)
            &&& req.state.visited.contains(req.path)
        },
        StepView::Probe(req) => {
            &&& steady(t, req.state, None, 1)
            &&& req.state.stack.len() > 0
            &&& last_taken(t, req.state.stack.last()) == req.reference
            &&& fate(t, req.state.stack.last().file, req.reference) == fate_of_search(
                t.world,
                seq![req.path] + req.later,
                req.fallback,
                req.strict,
            )
        },
        StepView::Canonicalize(req) => {
            &&& steady(t, req.state, None, 1)
            &&& req.state.stack.len() > 0
            &&& last_taken(t, req.state.stack.last()) == req.reference
            &&& fate(t, req.state.stack.last().file, req.reference) == fate_of_path(
                t.world,
                req.path,
                req.strict,
            )
        },
        StepView::Done(Ok(found)) => exact(t, found) && sound_scope(t),
        StepView::Done(Err(message)) => is_failure(t, message),
    }
}

/// Whether everything in `a` is in `b`.
pub open spec fn within<A>(a: Seq<A>, b: Seq<A>) -> bool {
    forall|x: A| #[trigger] a.contains(x) ==> b.contains(x)
}

/// What is settled stays settled when more is entered and found.
pub proof fn lemma_followed_grows(
    t: Task,
    v1: Seq<Seq<char>>,
    f1: Seq<DependencyView>,
    v2: Seq<Seq<char>>,
    f2: Seq<DependencyView>,
    file: Seq<char>,
    refs: Seq<Seq<char>>,
    upto: int,
)
    requires
        followed(t, v1, f1, file, refs, upto),
        within(v1, v2),
        within(f1, f2),
    ensures
        followed(t, v2, f2, file, refs, upto),
{
    assert forall|j: int| 0 <= j < upto implies settled(t, v2, f2, file, #[trigger] refs[j]) by {
        assert(settled(t, v1, f1, file, refs[j]));
    }
}

/// A state stays steady when more is entered and found, if what is new is
/// justified and accounted for, and the last reference taken up is settled
/// by it.
pub proof fn lemma_steady_grows(
    t: Task,
    s1: Scan,
    s2: Scan,
    reading: Option<Seq<char>>,
    in_flight: int,
)
    requires
        steady(t, s1, None, in_flight),
        0 <= in_flight <= 1,
        s2.wf(),
        s2.kind == s1.kind,
        s2.include_external == s1.include_external,
        s2.stack == s1.stack,
        within(s1.visited, s2.visited),
        within(s1.found, s2.found),
        justified(t, s2),
        forall|i: int|
            0 <= i < s2.visited.len() ==> s1.visited.contains(#[trigger] s2.visited[i])
                || reading == Some(s2.visited[i]),
        in_flight == 1 ==> s1.stack.len() > 0 && settled(
            t,
            s2.visited,
            s2.found,
            s1.stack.last().file,
            last_taken(t, s1.stack.last()),
        ),
    ensures
        steady(t, s2, reading, 0),
{
    assert forall|i: int| 0 <= i < s2.stack.len() implies frame_ok(
        t,
        s2.visited,
        s2.found,
        #[trigger] s2.stack[i],
        0,
    ) by {
        let frame = s1.stack[i];
        let flying = if i == s1.stack.len() - 1 {
            in_flight
        } else {
            0
        };
        assert(frame_ok(t, s1.visited, s1.found, frame, flying));
        let refs = references(t, frame.file)->Ok_0;
        let done = refs.len() - frame.pending.len() - flying;
        lemma_followed_grows(
            t,
            s1.visited,
            s1.found,
            s2.visited,
            s2.found,
            frame.file,
            refs,
            done,
        );
    }
    assert forall|i: int| 0 <= i < s2.visited.len() implies {
        ||| reading == Some(#[trigger] s2.visited[i])
        ||| on_stack(s2.stack, s2.visited[i])
        ||| complete(t, s2.visited, s2.found, s2.visited[i])
    } by {
        let file = s2.visited[i];
        if s1.visited.contains(file) && !on_stack(s1.stack, file) {
            let k = choose|k: int| 0 <= k < s1.visited.len() && s1.visited[k] == file;
            assert(complete(t, s1.visited, s1.found, s1.visited[k]));
            let refs = references(t, file)->Ok_0;
            lemma_followed_grows(
                t,
                s1.visited,
                s1.found,
                s2.visited,
                s2.found,
                file,
                refs,
                refs.len() as int,
            );
        }
    }
}

/// A name under which a file in scope refers to something external is a
/// dependency, where external dependencies are wanted.
pub proof fn lemma_named_is_dependency(t: Task, file: Seq<char>, name: Seq<char>)
    requires
        t.include_external,
        in_scope(t, file),
        names(t, file, name),
    ensures
        is_dependency(t, DependencyView::External(name)),
{
    let dependency = DependencyView::External(name);
    assert(dependency->External_0 == name);
    assert(exists|f: Seq<char>| in_scope(t, f) && #[trigger] names(t, f, name));
}

/// Taking up the next pending reference of the innermost file.
pub proof fn lemma_consume(t: Task, s: Scan)
    requires
        steady(t, s, None, 0),
        s.stack.len() > 0,
        s.stack.last().pending.len() > 0,
    ensures
        steady(t, s.consume(), None, 1),
        s.consume().stack.len() > 0,
        s.consume().stack.last().file == s.stack.last().file,
        last_taken(t, s.consume().stack.last()) == s.stack.last().pending[0],
        references(t, s.stack.last().file) is Ok,
{
    let rest = s.consume();
    let top = s.stack.last();
    let last = s.stack.len() - 1;
    assert(frame_ok(t, s.visited, s.found, s.stack[last], 0));
    let refs = references(t, top.file)->Ok_0;
    let done = refs.len() - top.pending.len();
    assert(top.pending[0] == refs[done]);
    assert(rest.stack.last().pending =~= refs.skip(done + 1));
    assert forall|i: int| 0 <= i < rest.stack.len() implies frame_ok(
        t,
        rest.visited,
        rest.found,
        #[trigger] rest.stack[i],
        if i == rest.stack.len() - 1 {
            1
        } else {
            0
        },
    ) by {
        if i < last {
            assert(rest.stack[i] == s.stack[i]);
            assert(frame_ok(t, s.visited, s.found, s.stack[i], 0));
        }
    }
    assert forall|i: int| 0 <= i < rest.stack.len() implies rest.visited.contains(
        (#[trigger] rest.stack[i]).file,
    ) by {
        assert(rest.stack[i].file == s.stack[i].file);
    }
    assert forall|i: int| 0 <= i < rest.visited.len() implies {
        ||| on_stack(rest.stack, #[trigger] rest.visited[i])
        ||| complete(t, rest.visited, rest.found, rest.visited[i])
    } by {
        let file = s.visited[i];
        if on_stack(s.stack, file) {
            let k = choose|k: int| 0 <= k < s.stack.len() && (#[trigger] s.stack[k]).file == file;
            assert(rest.stack[k].file == file);
        }
    }
}

/// Leaving the innermost file when none of its references is pending.
pub proof fn lemma_leave(t: Task, s: Scan)
    requires
        steady(t, s, None, 0),
        s.stack.len() > 0,
        s.stack.last().pending.len() == 0,
    ensures
        steady(t, s.leave(), None, 0),
{
    let left = s.leave();
    let top = s.stack.last();
    let last = s.stack.len() - 1;
    assert(frame_ok(t, s.visited, s.found, s.stack[last], 0));
    assert(complete(t, s.visited, s.found, top.file));
    assert forall|i: int| 0 <= i < left.stack.len() implies frame_ok(
        t,
        left.visited,
        left.found,
        #[trigger] left.stack[i],
        0,
    ) by {
        assert(left.stack[i] == s.stack[i]);
        assert(frame_ok(t, s.visited, s.found, s.stack[i], 0));
    }
    assert forall|i: int| 0 <= i < left.stack.len() implies left.visited.contains(
        (#[trigger] left.stack[i]).file,
    ) by {
        assert(left.stack[i] == s.stack[i]);
    }
    assert forall|i: int| 0 <= i < left.visited.len() implies {
        ||| on_stack(left.stack, #[trigger] left.visited[i])
        ||| complete(t, left.visited, left.found, left.visited[i])
    } by {
        let file = s.visited[i];
        if on_stack(s.stack, file) && file != top.file {
            let k = choose|k: int| 0 <= k < s.stack.len() && (#[trigger] s.stack[k]).file == file;
            assert(left.stack[k].file == file);
        }
    }
}

/// Entering the file that was read.
pub proof fn lemma_enter(t: Task, s: Scan, path: Seq<char>, refs: Seq<Seq<char>>)
    requires
        steady(t, s, Some(path), 0),
        s.visited.contains(path),
        references(t, path) == Ok::<Seq<Seq<char>>, Seq<char>>(refs),
    ensures
        steady(t, s.enter(path, refs), None, 0),
{
    let inside = s.enter(path, refs);
    let last = inside.stack.len() - 1;
    assert(inside.stack[last].file == path);
    assert(refs.skip(0) =~= refs);
    assert forall|i: int| 0 <= i < inside.stack.len() implies frame_ok(
        t,
        inside.visited,
        inside.found,
        #[trigger] inside.stack[i],
        0,
    ) by {
        if i < last {
            assert(inside.stack[i] == s.stack[i]);
            assert(frame_ok(t, s.visited, s.found, s.stack[i], 0));
        }
    }
    assert forall|i: int| 0 <= i < inside.stack.len() implies inside.visited.contains(
        (#[trigger] inside.stack[i]).file,
    ) by {
        if i < last {
            assert(inside.stack[i] == s.stack[i]);
        }
    }
    assert forall|i: int| 0 <= i < inside.visited.len() implies {
        ||| on_stack(inside.stack, #[trigger] inside.visited[i])
        ||| complete(t, inside.visited, inside.found, inside.visited[i])
    } by {
        let file = s.visited[i];
        if file == path {
            assert(inside.stack[last].file == file);
        } else if on_stack(s.stack, file) {
            let k = choose|k: int| 0 <= k < s.stack.len() && (#[trigger] s.stack[k]).file == file;
            assert(inside.stack[k].file == file);
        }
    }
}

/// What noting a dependency does to what was found.
pub proof fn lemma_note_found(s: Scan, dependency: DependencyView)
    ensures
        s.note(dependency).found.contains(dependency),
        within(s.found, s.note(dependency).found),
        forall|j: int|
            0 <= j < s.note(dependency).found.len() ==> #[trigger] s.note(dependency).found[j]
                == dependency || s.found.contains(s.note(dependency).found[j]),
{
    let after = s.note(dependency);
    if !s.found.contains(dependency) {
        assert(after.found.last() == dependency);
        assert forall|d: DependencyView| #[trigger] s.found.contains(d) implies after.found.contains(
            d,
        ) by {
            let i = choose|i: int| 0 <= i < s.found.len() && s.found[i] == d;
            assert(after.found[i] == d);
        }
        assert forall|j: int| 0 <= j < after.found.len() implies #[trigger] after.found[j]
            == dependency || s.found.contains(after.found[j]) by {
            if j < s.found.len() {
                assert(s.found[j] == after.found[j]);
            }
        }
    } else {
        assert forall|j: int| 0 <= j < after.found.len() implies #[trigger] after.found[j]
            == dependency || s.found.contains(after.found[j]) by {
            assert(s.found[j] == after.found[j]);
        }
    }
}

/// Settling the last reference taken up as external.
pub proof fn lemma_settle_external(t: Task, s: Scan, reference: Seq<char>)
    requires
        steady(t, s, None, 1),
        s.stack.len() > 0,
        last_taken(t, s.stack.last()) == reference,
        fate(t, s.stack.last().file, reference) == Fate::External,
    ensures
        steady(t, s.note_external(reference), None, 0),
{
    let after = s.note_external(reference);
    let top = s.stack.last();
    let last = s.stack.len() - 1;
    let dependency = DependencyView::External(reference);
    assert(frame_ok(t, s.visited, s.found, s.stack[last], 1));
    assert(s.visited.contains(s.stack[last].file));
    if s.include_external {
        lemma_note_wf(s, dependency);
        lemma_note_found(s, dependency);
        assert(is_dependency(t, dependency)) by {
            let refs = references(t, top.file)->Ok_0;
            let k = choose|k: int| 0 <= k < s.visited.len() && s.visited[k] == top.file;
            assert(in_scope(t, s.visited[k]));
            let at = refs.len() - top.pending.len() - 1;
            assert(0 <= at < refs.len());
            assert(refs[at] == reference);
            assert(fate(t, top.file, reference) == Fate::External);
            assert(names(t, top.file, reference));
            lemma_named_is_dependency(t, top.file, reference);
        }
        assert forall|j: int| 0 <= j < after.found.len() implies is_dependency(
            t,
            #[trigger] after.found[j],
        ) by {
            if after.found[j] != dependency {
                let k = choose|k: int| 0 <= k < s.found.len() && s.found[k] == after.found[j];
                assert(is_dependency(t, s.found[k]));
            }
        }
    }
    assert(within(s.visited, after.visited));
    assert(within(s.found, after.found)) by {
        if s.include_external {
            lemma_note_found(s, dependency);
        }
    }
    assert forall|i: int| 0 <= i < after.visited.len() implies s.visited.contains(
        #[trigger] after.visited[i],
    ) by {
        assert(s.visited[i] == after.visited[i]);
    }
    lemma_steady_grows(t, s, after, None, 1);
}

/// Settling the last reference taken up as the file `path`, which is
/// entered unless it was entered before.
pub proof fn lemma_settle_local(t: Task, s: Scan, reference: Seq<char>, path: Seq<char>)
    requires
        steady(t, s, None, 1),
        s.stack.len() > 0,
        last_taken(t, s.stack.last()) == reference,
        fate(t, s.stack.last().file, reference) == Fate::Local(path),
    ensures
        s.visited.contains(path) ==> steady(t, s.note(DependencyView::Local(path)), None, 0),
        !s.visited.contains(path) ==> steady(
            t,
            s.note(DependencyView::Local(path)).visit(path),
            Some(path),
            0,
        ) && s.note(DependencyView::Local(path)).visit(path).visited.contains(path),
{
    let dependency = DependencyView::Local(path);
    let noted = s.note(dependency);
    let top = s.stack.last();
    let last = s.stack.len() - 1;
    assert(frame_ok(t, s.visited, s.found, s.stack[last], 1));
    assert(s.visited.contains(s.stack[last].file));
    lemma_note_found(s, dependency);
    assert(reachable(t, path)) by {
        let refs = references(t, top.file)->Ok_0;
        let k = choose|k: int| 0 <= k < s.visited.len() && s.visited[k] == top.file;
        assert(in_scope(t, s.visited[k]));
        let at = refs.len() - top.pending.len() - 1;
        assert(refs[at] == reference);
        assert(imports(t, top.file, path));
        lemma_reach_on(t, top.file, path);
    }
    assert forall|j: int| 0 <= j < noted.found.len() implies is_dependency(
        t,
        #[trigger] noted.found[j],
    ) by {
        if noted.found[j] != dependency {
            let k = choose|k: int| 0 <= k < s.found.len() && s.found[k] == noted.found[j];
            assert(is_dependency(t, s.found[k]));
        }
    }
    if s.visited.contains(path) {
        lemma_note_wf(s, dependency);
        assert forall|i: int| 0 <= i < noted.visited.len() implies s.visited.contains(
            #[trigger] noted.visited[i],
        ) by {
            assert(s.visited[i] == noted.visited[i]);
        }
        assert(within(s.visited, noted.visited));
        lemma_steady_grows(t, s, noted, None, 1);
    } else {
        let after = noted.visit(path);
        lemma_visit_wf(s, path);
        assert(after.visited.last() == path);
        assert(after.visited.contains(path));
        assert forall|x: Seq<char>| #[trigger] s.visited.contains(x) implies after.visited.contains(
            x,
        ) by {
            let i = choose|i: int| 0 <= i < s.visited.len() && s.visited[i] == x;
            assert(after.visited[i] == x);
        }
        assert forall|i: int| 0 <= i < after.visited.len() implies in_scope(
            t,
            #[trigger] after.visited[i],
        ) by {
            if i < s.visited.len() {
                assert(after.visited[i] == s.visited[i]);
            }
        }
        assert forall|i: int| 0 <= i < after.visited.len() implies s.visited.contains(
            #[trigger] after.visited[i],
        ) || Some(path) == Some(after.visited[i]) by {
            if i < s.visited.len() {
                assert(after.visited[i] == s.visited[i]);
            }
        }
        assert(after.visited[0] == s.visited[0]);
        lemma_steady_grows(t, s, after, Some(path), 1);
    }
}

/// With nothing left to follow, every file of a chain that starts at the
/// entry file was entered, and every file after the first was found.
pub proof fn lemma_chain_found(t: Task, s: Scan, chain: Seq<Seq<char>>, i: int)
    requires
        steady(t, s, None, 0),
        s.stack.len() == 0,
        is_chain(t, chain),
        chain.len() >= 1,
        chain[0] == t.entry,
        0 <= i < chain.len(),
    ensures
        s.visited.contains(chain[i]),
        i >= 1 ==> s.found.contains(DependencyView::Local(chain[i])),
    decreases i,
{
    if i == 0 {
        assert(s.visited[0] == chain[0]);
    } else {
        lemma_chain_found(t, s, chain, i - 1);
        let file = chain[i - 1];
        let k = choose|k: int| 0 <= k < s.visited.len() && s.visited[k] == file;
        assert(complete(t, s.visited, s.found, s.visited[k])) by {
            if on_stack(s.stack, s.visited[k]) {
                let j = choose|j: int|
                    0 <= j < s.stack.len() && (#[trigger] s.stack[j]).file == s.visited[k];
            }
        }
        assert(imports(t, chain[i - 1], chain[i - 1 + 1]));
        let refs = references(t, file)->Ok_0;
        let at = choose|at: int|
            0 <= at < refs.len() && fate(t, file, #[trigger] refs[at]) == Fate::Local(chain[i]);
        assert(settled(t, s.visited, s.found, file, refs[at]));
    }
}

/// With nothing left to follow, what was found is exact, and every file in
/// scope was read and resolved without failure.
pub proof fn lemma_exact(t: Task, s: Scan)
    requires
        steady(t, s, None, 0),
        s.stack.len() == 0,
    ensures
        exact(t, s.found),
        sound_scope(t),
{
    assert forall|file: Seq<char>| #[trigger] in_scope(t, file) implies s.visited.contains(file)
        && complete(t, s.visited, s.found, file) by {
        if file == t.entry {
            assert(s.visited[0] == file);
        } else {
            let chain = choose|chain: Seq<Seq<char>>|
                #![auto]
                is_chain(t, chain) && chain.len() >= 2 && chain[0] == t.entry && chain.last()
                    == file;
            lemma_chain_found(t, s, chain, chain.len() - 1);
        }
        let k = choose|k: int| 0 <= k < s.visited.len() && s.visited[k] == file;
        assert(complete(t, s.visited, s.found, s.visited[k])) by {
            if on_stack(s.stack, s.visited[k]) {
                let j = choose|j: int|
                    0 <= j < s.stack.len() && (#[trigger] s.stack[j]).file == s.visited[k];
            }
        }
    }
    assert forall|file: Seq<char>| #[trigger] in_scope(t, file) implies is_sound(t, file) by {
        assert(complete(t, s.visited, s.found, file));
        let refs = references(t, file)->Ok_0;
        assert forall|i: int| 0 <= i < refs.len() implies !(fate(t, file, #[trigger] refs[i])
            is Fatal) by {
            assert(settled(t, s.visited, s.found, file, refs[i]));
        }
    }
    assert forall|dependency: DependencyView| #[trigger]
        s.found.contains(dependency) <==> is_dependency(t, dependency) by {
        if s.found.contains(dependency) {
            let j = choose|j: int| 0 <= j < s.found.len() && s.found[j] == dependency;
            assert(is_dependency(t, s.found[j]));
        }
        if is_dependency(t, dependency) {
            match dependency {
                DependencyView::Local(path) => {
                    let chain = choose|chain: Seq<Seq<char>>|
                        #![auto]
                        is_chain(t, chain) && chain.len() >= 2 && chain[0] == t.entry
                            && chain.last() == path;
                    lemma_chain_found(t, s, chain, chain.len() - 1);
                },
                DependencyView::External(name) => {
                    let file = choose|file: Seq<char>|
                        in_scope(t, file) && #[trigger] names(t, file, name);
                    assert(complete(t, s.visited, s.found, file));
                    let refs = references(t, file)->Ok_0;
                    let at = choose|at: int|
                        0 <= at < refs.len() && #[trigger] refs[at] == name && fate(t, file, name)
                            == Fate::External;
                    assert(settled(t, s.visited, s.found, file, refs[at]));
                },
            }
        }
    }
}

/// Where a file in scope breaks the analysis, the scope is not sound.
pub proof fn lemma_failure_is_unsound(t: Task, message: Seq<char>)
    requires
        is_failure(t, message),
    ensures
        !sound_scope(t),
{
    let file = choose|file: Seq<char>| in_scope(t, file) && #[trigger] breaks(t, file, message);
    if let Ok(refs) = references(t, file) {
        let i = choose|i: int|
            0 <= i < refs.len() && fate(t, file, #[trigger] refs[i]) == Fate::Fatal(message);
        assert(fate(t, file, refs[i]) is Fatal);
    }
    assert(!is_sound(t, file));
}

/// Where the last reference taken up cannot be resolved, the analysis
/// fails with the message of that.
pub proof fn lemma_top_breaks(t: Task, s: Scan, reference: Seq<char>, message: Seq<char>)
    requires
        steady(t, s, None, 1),
        s.stack.len() > 0,
        last_taken(t, s.stack.last()) == reference,
        fate(t, s.stack.last().file, reference) == Fate::Fatal(message),
    ensures
        is_failure(t, message),
{
    let top = s.stack.last();
    let last = s.stack.len() - 1;
    assert(s.visited.contains(s.stack[last].file));
    let k = choose|k: int| 0 <= k < s.visited.len() && s.visited[k] == top.file;
    assert(in_scope(t, s.visited[k]));
    assert(frame_ok(t, s.visited, s.found, s.stack[last], 1));
    let refs = references(t, top.file)->Ok_0;
    let at = refs.len() - top.pending.len() - 1;
    assert(refs[at] == reference);
    assert(breaks(t, top.file, message));
}

/// Taking up pending references leads to a step of the same analysis.
pub proof fn lemma_advance_faithful(t: Task, s: Scan)
    requires
        steady(t, s, None, 0),
    ensures
        faithful(t, advance(s)),
    decreases s.stack.len(), s.pending(), 0nat,
{
    if s.stack.len() == 0 {
        lemma_exact(t, s);
    } else {
        let top = s.stack.last();
        if top.pending.len() == 0 {
            lemma_leave(t, s);
            lemma_advance_faithful(t, s.leave());
        } else {
            let reference = top.pending[0];
            let rest = s.consume();
            lemma_consume(t, s);
            match spec_plan(s.kind, top.file, reference) {
                PlanView::External => {
                    lemma_settle_external(t, rest, reference);
                    lemma_advance_faithful(t, rest.note_external(reference));
                },
                PlanView::Fail(message) => {
                    lemma_top_breaks(t, rest, reference, message);
                },
                PlanView::Resolve(search) => {
                    lemma_look_faithful(
                        t,
                        rest,
                        reference,
                        search.candidates,
                        search.fallback,
                        search.strict,
                    );
                },
            }
        }
    }
}

/// Going on with a search leads to a step of the same analysis.
pub proof fn lemma_look_faithful(
    t: Task,
    s: Scan,
    reference: Seq<char>,
    remaining: Seq<Seq<char>>,
    fallback: Option<Seq<char>>,
    strict: bool,
)
    requires
        steady(t, s, None, 1),
        s.stack.len() > 0,
        last_taken(t, s.stack.last()) == reference,
        fate(t, s.stack.last().file, reference) == fate_of_search(
            t.world,
            remaining,
            fallback,
            strict,
        ),
    ensures
        faithful(t, look(s, reference, remaining, fallback, strict)),
    decreases s.stack.len(), s.pending(), 1nat,
{
    if remaining.len() > 0 {
        assert(seq![remaining[0]] + remaining.drop_first() =~= remaining);
    } else if fallback is None {
        lemma_settle_external(t, s, reference);
        lemma_advance_faithful(t, s.note_external(reference));
    }
}

/// One answer from the world leads from a step of an analysis to a step of
/// the same analysis.
pub proof fn lemma_answer_faithful(t: Task, step: StepView)
    requires
        faithful(t, step),
    ensures
        faithful(t, answer(t.world, step)),
{
    match step {
        StepView::Read(req) => {
            let k = choose|k: int|
                0 <= k < req.state.visited.len() && req.state.visited[k] == req.path;
            assert(in_scope(t, req.state.visited[k]));
            match references(t, req.path) {
                Ok(refs) => {
                    lemma_enter(t, req.state, req.path, refs);
                    lemma_advance_faithful(t, req.state.enter(req.path, refs));
                },
                Err(message) => {
                    assert(breaks(t, req.path, message));
                },
            }
        },
        StepView::Probe(req) => {
            let all = seq![req.path] + req.later;
            assert(all[0] == req.path);
            assert(all.drop_first() =~= req.later);
            if !(t.world.present)(req.path) {
                lemma_look_faithful(
                    t,
                    req.state,
                    req.reference,
                    req.later,
                    req.fallback,
                    req.strict,
                );
            }
        },
        StepView::Canonicalize(req) => {
            match (t.world.canonical)(req.path) {
                Ok(path) => {
                    lemma_settle_local(t, req.state, req.reference, path);
                    if req.state.visited.contains(path) {
                        lemma_advance_faithful(
                            t,
                            req.state.note(DependencyView::Local(path)),
                        );
                    }
                },
                Err(reason) => {
                    if req.strict {
                        lemma_top_breaks(
                            t,
                            req.state,
                            req.reference,
                            "Failed to resolve path: "@ + reason,
                        );
                    } else {
                        lemma_settle_external(t, req.state, req.reference);
                        lemma_advance_faithful(t, req.state.note_external(req.reference));
                    }
                },
            }
        },
        StepView::Done(result) => {},
    }
}

/// The first step of an analysis is a step of that analysis.
pub proof fn lemma_begin_faithful(t: Task)
    ensures
        faithful(t, begin(t.kind, t.include_external, t.entry)),
{
    let step = begin(t.kind, t.include_external, t.entry);
    lemma_begin_inv(t.kind, t.include_external, t.entry);
    if let StepView::Read(req) = step {
        assert(req.state.visited[0] == t.entry);
        assert(req.state.visited.contains(t.entry));
    }
}

/// Any number of answers from the world lead from a step of an analysis to
/// a step of the same analysis.
pub proof fn lemma_run_faithful(t: Task, step: StepView, n: nat)
    requires
        faithful(t, step),
    ensures
        faithful(t, run(t.world, step, n)),
    decreases n,
{
    if n > 0 {
        lemma_answer_faithful(t, step);
        lemma_run_faithful(t, answer(t.world, step), (n - 1) as nat);
    }
}

/// Exactness. A traversal that ends well has found the dependencies of the
/// entry file and nothing else: every file that can be reached from it
/// through imports, and, where they are wanted, every name under which a file
/// in scope refers to something external. It ends well only where every
/// file in scope can be read and every reference in such a file can be
/// resolved. A traversal that fails does so with the message of a file in
/// scope that cannot be read or holds a reference that cannot be resolved.
pub proof fn lemma_result_is_exact(t: Task, n: nat)
    ensures
        match traverse(t.world, t.kind, t.include_external, t.entry, n) {
            StepView::Done(Ok(found)) => exact(t, found) && sound_scope(t),
            StepView::Done(Err(message)) => is_failure(t, message) && !sound_scope(t),
            _ => true,
        },
{
    lemma_begin_faithful(t);
    lemma_run_faithful(t, begin(t.kind, t.include_external, t.entry), n);
    if let StepView::Done(Err(message)) = traverse(
        t.world,
        t.kind,
        t.include_external,
        t.entry,
        n,
    ) {
        lemma_failure_is_unsound(t, message);
    }
}

/// The whole of it. Over a world whose canonical paths are finitely many,
/// the traversal of the entry file ends. It ends well exactly where every
/// file in scope can be read and every reference in such a file can be
/// resolved, and then with the dependencies of the entry file, each once and
/// nothing else. Otherwise it ends with the message of a file in scope that
/// breaks it.
pub proof fn lemma_outcome(t: Task, files: Set<Seq<char>>) -> (n: nat)
    requires
        files.finite(),
        confined(t.world, files),
    ensures
        match traverse(t.world, t.kind, t.include_external, t.entry, n) {
            StepView::Done(Ok(found)) => sound_scope(t) && exact(t, found)
                && found.no_duplicates(),
            StepView::Done(Err(message)) => !sound_scope(t) && is_failure(t, message),
            _ => false,
        },
{
    let n = lemma_traversal_ends(t.world, files, t.kind, t.include_external, t.entry);
    lemma_result_is_exact(t, n);
    lemma_nothing_twice(t.world, t.kind, t.include_external, t.entry, n);
    n
}

/// Ancestor search order. A Haskell module is taken from the nearest
/// directory around the importing file that has it, whatever lies further
/// out; and where that directory has it both flat and nested, the flat file
/// is taken.
pub proof fn lemma_nearest_place_wins(t: Task, file: Seq<char>, reference: Seq<char>, k: int)
    requires
        t.kind is Haskell,
        0 <= k < enclosing_dirs(file).len(),
        forall|j: int|
            0 <= j < k ==> !(t.world.present)(
                flat_file(#[trigger] enclosing_dirs(file)[j], reference),
            ) && !(t.world.present)(
                nested_file(enclosing_dirs(file)[j], pieces(reference, '.')),
            ),
        (t.world.present)(flat_file(enclosing_dirs(file)[k], reference)) || (t.world.present)(
            nested_file(enclosing_dirs(file)[k], pieces(reference, '.')),
        ),
    ensures
        fate(t, file, reference) == fate_of_path(
            t.world,
            if (t.world.present)(flat_file(enclosing_dirs(file)[k], reference)) {
                flat_file(enclosing_dirs(file)[k], reference)
            } else {
                nested_file(enclosing_dirs(file)[k], pieces(reference, '.'))
            },
            false,
        ),
{
    let dirs = enclosing_dirs(file);
    let candidates = candidates_under(dirs, reference);
    assert(HaskellParser::spec_resolve_local_path(file, reference) == candidates);
    let at = if (t.world.present)(flat_file(dirs[k], reference)) {
        2 * k
    } else {
        2 * k + 1
    };
    assert forall|j: int| 0 <= j < at implies !(t.world.present)(#[trigger] candidates[j]) by {
        if j / 2 < k {
            assert(!(t.world.present)(flat_file(dirs[j / 2], reference)));
        }
    }
    lemma_first_present_at(t.world, candidates, at);
}

/// Extension fallback. A TypeScript path without an extension is taken with
/// the first of the known extensions under which a file exists.
pub proof fn lemma_first_extension_wins(t: Task, file: Seq<char>, reference: Seq<char>, k: int)
    requires
        t.kind is TypeScript,
        TypeScriptParser::spec_is_local_import(reference),
        parent_dir(file) is Some,
        path_extension(path_join(parent_dir(file)->Some_0, reference)) is None,
        0 <= k < extension_candidates(path_join(parent_dir(file)->Some_0, reference)).len(),
        forall|j: int|
            0 <= j < k ==> !(t.world.present)(
                #[trigger] extension_candidates(
                    path_join(parent_dir(file)->Some_0, reference),
                )[j],
            ),
        (t.world.present)(
            extension_candidates(path_join(parent_dir(file)->Some_0, reference))[k],
        ),
    ensures
        fate(t, file, reference) == fate_of_path(
            t.world,
            extension_candidates(path_join(parent_dir(file)->Some_0, reference))[k],
            true,
        ),
{
    let base = path_join(parent_dir(file)->Some_0, reference);
    lemma_first_present_at(t.world, extension_candidates(base), k);
}

} // verus!
