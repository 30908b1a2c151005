//! Traversals against a file system that stands still.
//!
//! The traversal itself never sees a file system: it only sees answers. What
//! it promises as a whole is stated here, of the steps it takes when every
//! answer comes from one and the same world.

use crate::language::{DependencyView, LanguageKind, PlanView};
use crate::traversal::{
    advance,
    after_canonicalize,
    after_probe,
    after_read,
    begin,
    lemma_after_canonicalize_inv,
    lemma_after_probe_inv,
    lemma_after_read_inv,
    lemma_begin_inv,
    look,
    spec_extract,
    spec_plan,
    CanonicalizeView,
    FrameView,
    Scan,
    StepView,
};
use vstd::set_lib::lemma_len_subset;
use vstd::prelude::*;

verus! {

/// A file system, as far as a traversal can ask about it.
pub struct World {
    /// The text of the file at a path, or the reason why it cannot be read.
    pub text: spec_fn(Seq<char>) -> Result<Seq<char>, Seq<char>>,
    /// Whether there is anything at a path.
    pub present: spec_fn(Seq<char>) -> bool,
    /// The canonical form of a path, or the reason why it has none.
    pub canonical: spec_fn(Seq<char>) -> Result<Seq<char>, Seq<char>>,
}

/// The step that follows `step` when its request is answered from `w`. The
/// last step is followed by itself.
pub open spec fn answer(w: World, step: StepView) -> StepView {
    match step {
        StepView::Read(req) => after_read(req, (w.text)(req.path)),
        StepView::Probe(req) => after_probe(req, (w.present)(req.path)),
        StepView::Canonicalize(req) => after_canonicalize(req, (w.canonical)(req.path)),
        StepView::Done(result) => StepView::Done(result),
    }
}

/// The step reached from `step` after `n` answers from `w`.
pub open spec fn run(w: World, step: StepView, n: nat) -> StepView
    decreases n,
{
    if n == 0 {
        step
    } else {
        run(w, answer(w, step), (n - 1) as nat)
    }
}

/// The step reached by the traversal of `entry` after `n` answers from `w`.
pub open spec fn traverse(
    w: World,
    kind: LanguageKind,
    include_external: bool,
    entry: Seq<char>,
    n: nat,
) -> StepView {
    run(w, begin(kind, include_external, entry), n)
}

/// One answer leads from a step of a traversal to a step of the same
/// traversal.
pub proof fn lemma_answer_inv(w: World, step: StepView, kind: LanguageKind, include_external: bool)
    requires
        step.inv(kind, include_external),
    ensures
        answer(w, step).inv(kind, include_external),
{
    match step {
        StepView::Read(req) => lemma_after_read_inv(
            req,
            (w.text)(req.path),
            kind,
            include_external,
        ),
        StepView::Probe(req) => lemma_after_probe_inv(
            req,
            (w.present)(req.path),
            kind,
            include_external,
        ),
        StepView::Canonicalize(req) => lemma_after_canonicalize_inv(
            req,
            (w.canonical)(req.path),
            kind,
            include_external,
        ),
        StepView::Done(result) => {},
    }
}

/// Any number of answers lead from a step of a traversal to a step of the
/// same traversal.
pub proof fn lemma_run_inv(
    w: World,
    step: StepView,
    n: nat,
    kind: LanguageKind,
    include_external: bool,
)
    requires
        step.inv(kind, include_external),
    ensures
        run(w, step, n).inv(kind, include_external),
    decreases n,
{
    if n > 0 {
        lemma_answer_inv(w, step, kind, include_external);
        lemma_run_inv(w, answer(w, step), (n - 1) as nat, kind, include_external);
    }
}

/// Running on in two stretches is running on in one.
pub proof fn lemma_run_split(w: World, step: StepView, n: nat, m: nat)
    ensures
        run(w, step, n + m) == run(w, run(w, step, n), m),
    decreases n,
{
    if n > 0 {
        lemma_run_split(w, answer(w, step), (n - 1) as nat, m);
    }
}

/// Once a traversal is over, it stays over, with the same result.
pub proof fn lemma_done_stays(w: World, step: StepView, n: nat)
    requires
        step is Done,
    ensures
        run(w, step, n) == step,
    decreases n,
{
    if n > 0 {
        lemma_done_stays(w, step, (n - 1) as nat);
    }
}

/// Determinism. Against one world, the traversal of one file for one
/// language and one inclusion flag has one result: however many answers two
/// runs took to end, they ended alike.
pub proof fn lemma_one_result(
    w: World,
    kind: LanguageKind,
    include_external: bool,
    entry: Seq<char>,
    n: nat,
    m: nat,
)
    requires
        traverse(w, kind, include_external, entry, n) is Done,
        traverse(w, kind, include_external, entry, m) is Done,
    ensures
        traverse(w, kind, include_external, entry, n) == traverse(
            w,
            kind,
            include_external,
            entry,
            m,
        ),
{
    let first = begin(kind, include_external, entry);
    if n <= m {
        lemma_run_split(w, first, n, (m - n) as nat);
        lemma_done_stays(w, run(w, first, n), (m - n) as nat);
    } else {
        lemma_run_split(w, first, m, (n - m) as nat);
        lemma_done_stays(w, run(w, first, m), (n - m) as nat);
    }
}

/// Deduplication. Whatever the shape of the import graph, no dependency
/// occurs twice in the result of a traversal.
pub proof fn lemma_nothing_twice(
    w: World,
    kind: LanguageKind,
    include_external: bool,
    entry: Seq<char>,
    n: nat,
)
    ensures
        traverse(w, kind, include_external, entry, n) matches StepView::Done(Ok(found))
            ==> found.no_duplicates(),
{
    lemma_begin_inv(kind, include_external, entry);
    lemma_run_inv(w, begin(kind, include_external, entry), n, kind, include_external);
}

/// External gating. Without the inclusion flag, the result of a traversal
/// holds local dependencies only, whatever the files refer to.
pub proof fn lemma_external_gating(w: World, kind: LanguageKind, entry: Seq<char>, n: nat)
    ensures
        traverse(w, kind, false, entry, n) matches StepView::Done(Ok(found)) ==> forall|i: int|
            0 <= i < found.len() ==> found[i] is Local,
{
    lemma_begin_inv(kind, false, entry);
    lemma_run_inv(w, begin(kind, false, entry), n, kind, false);
}

/// How many answers following up `reference` can take, at most.
pub open spec fn reference_cost(kind: LanguageKind, file: Seq<char>, reference: Seq<char>) -> nat {
    match spec_plan(kind, file, reference) {
        PlanView::Resolve(search) => search.candidates.len() + 2,
        _ => 1,
    }
}

/// How many answers following up the references `pending` of `file` can
/// take, at most, before one of them leads into another file.
pub open spec fn pending_cost(kind: LanguageKind, file: Seq<char>, pending: Seq<Seq<char>>) -> nat
    decreases pending.len(),
{
    if pending.len() == 0 {
        0
    } else {
        reference_cost(kind, file, pending[0]) + pending_cost(kind, file, pending.drop_first())
    }
}

/// The same for all the files whose references are being followed.
pub open spec fn stack_cost(kind: LanguageKind, stack: Seq<FrameView>) -> nat
    decreases stack.len(),
{
    if stack.len() == 0 {
        0
    } else {
        stack_cost(kind, stack.drop_last()) + pending_cost(
            kind,
            stack.last().file,
            stack.last().pending,
        )
    }
}

/// A bound on the number of answers that `step` is away from the end of the
/// traversal or from the next file.
pub open spec fn effort(step: StepView) -> nat {
    match step {
        StepView::Probe(req) => stack_cost(req.state.kind, req.state.stack) + req.later.len() + 2,
        StepView::Canonicalize(req) => stack_cost(req.state.kind, req.state.stack) + 1,
        _ => 0,
    }
}

/// The files entered by the time of `step`.
pub open spec fn entered(step: StepView) -> Seq<Seq<char>> {
    match step {
        StepView::Read(req) => req.state.visited,
        StepView::Probe(req) => req.state.visited,
        StepView::Canonicalize(req) => req.state.visited,
        StepView::Done(_) => Seq::empty(),
    }
}

/// Taking up pending references enters no file, and leads to a step that is
/// no further from the next file than the pending references allow.
pub proof fn lemma_advance_effort(s: Scan)
    ensures
        !(advance(s) is Read),
        !(advance(s) is Done) ==> entered(advance(s)) == s.visited,
        effort(advance(s)) <= stack_cost(s.kind, s.stack),
    decreases s.stack.len(), s.pending(), 0nat,
{
    if s.stack.len() > 0 {
        let top = s.stack.last();
        if top.pending.len() == 0 {
            lemma_advance_effort(s.leave());
        } else {
            let reference = top.pending[0];
            let rest = s.consume();
            assert(rest.stack.drop_last() =~= s.stack.drop_last());
            assert(stack_cost(s.kind, s.stack) == stack_cost(s.kind, rest.stack) + reference_cost(
                s.kind,
                top.file,
                reference,
            ));
            match spec_plan(s.kind, top.file, reference) {
                PlanView::External => {
                    lemma_advance_effort(rest.note_external(reference));
                },
                PlanView::Fail(message) => {},
                PlanView::Resolve(search) => {
                    lemma_look_effort(
                        rest,
                        reference,
                        search.candidates,
                        search.fallback,
                        search.strict,
                    );
                },
            }
        }
    }
}

/// Going on with a search enters no file, and leads to a step that is no
/// further from the next file than the remaining candidates and the pending
/// references allow.
pub proof fn lemma_look_effort(
    s: Scan,
    reference: Seq<char>,
    remaining: Seq<Seq<char>>,
    fallback: Option<Seq<char>>,
    strict: bool,
)
    ensures
        !(look(s, reference, remaining, fallback, strict) is Read),
        !(look(s, reference, remaining, fallback, strict) is Done) ==> entered(
            look(s, reference, remaining, fallback, strict),
        ) == s.visited,
        effort(look(s, reference, remaining, fallback, strict)) <= stack_cost(s.kind, s.stack)
            + remaining.len() + 1,
    decreases s.stack.len(), s.pending(), 1nat,
{
    if remaining.len() == 0 && fallback is None {
        lemma_advance_effort(s.note_external(reference));
    }
}

/// Progress. The answer to a request for a file's text never leads straight
/// to another such request. The answer to any other request either enters a
/// file that was not entered before, namely the canonical path just given, or leads to a step that is strictly
/// nearer to the end or to the next file. In all other cases the files
/// entered stay as they are.
pub proof fn lemma_progress(w: World, step: StepView)
    ensures
        match answer(w, step) {
            StepView::Read(next) => {
                &&& step matches StepView::Canonicalize(asked)
                &&& (w.canonical)(asked.path) matches Ok(path)
                &&& path == next.path
                &&& !entered(step).contains(next.path)
                &&& next.state.visited == entered(step).push(next.path)
            },
            StepView::Done(_) => true,
            next => {
                &&& entered(next) == entered(step)
                &&& !(step is Read) ==> effort(next) < effort(step)
            },
        },
{
    match step {
        StepView::Read(req) => {
            if let Ok(content) = (w.text)(req.path) {
                if let Ok(references) = spec_extract(req.state.kind, content) {
                    lemma_advance_effort(req.state.enter(req.path, references));
                }
            }
        },
        StepView::Probe(req) => {
            if !(w.present)(req.path) {
                lemma_look_effort(req.state, req.reference, req.later, req.fallback, req.strict);
            }
        },
        StepView::Canonicalize(req) => {
            match (w.canonical)(req.path) {
                Ok(path) => {
                    let noted = req.state.note(DependencyView::Local(path));
                    if noted.visited.contains(path) {
                        lemma_advance_effort(noted);
                    }
                },
                Err(reason) => {
                    if !req.strict {
                        lemma_advance_effort(req.state.note_external(req.reference));
                    }
                },
            }
        },
        StepView::Done(result) => {},
    }
}

/// Whether every canonical path that `w` gives out lies in `files`.
pub open spec fn confined(w: World, files: Set<Seq<char>>) -> bool {
    forall|path: Seq<char>| (#[trigger] (w.canonical)(path)) matches Ok(canonical) ==> files.contains(canonical)
}

/// A sequence without repetitions is no longer than a finite set that holds
/// all its elements.
proof fn lemma_fits(files: Set<Seq<char>>, visited: Seq<Seq<char>>)
    requires
        files.finite(),
        visited.no_duplicates(),
        forall|i: int| 0 <= i < visited.len() ==> files.contains(visited[i]),
    ensures
        visited.len() <= files.len(),
{
    visited.unique_seq_to_set();
    assert(visited.to_set().subset_of(files)) by {
        assert forall|p: Seq<char>| visited.to_set().contains(p) implies files.contains(p) by {
            let i = choose|i: int| 0 <= i < visited.len() && visited[i] == p;
        }
    }
    lemma_len_subset(visited.to_set(), files);
}

/// From any step of a traversal, finitely many answers lead to the end, if
/// the files that can be entered are finitely many.
pub proof fn lemma_run_ends(
    w: World,
    files: Set<Seq<char>>,
    step: StepView,
    kind: LanguageKind,
    include_external: bool,
) -> (n: nat)
    requires
        files.finite(),
        confined(w, files),
        step.inv(kind, include_external),
        forall|i: int| 0 <= i < entered(step).len() ==> files.contains(entered(step)[i]),
    ensures
        run(w, step, n) is Done,
    decreases
        files.len() - entered(step).len(),
        (if step is Read { 1nat } else { 0nat }),
        effort(step),
{
    if step is Done {
        0
    } else {
        let next = answer(w, step);
        lemma_answer_inv(w, step, kind, include_external);
        lemma_progress(w, step);
        lemma_fits(files, entered(step));
        if next is Done {
            assert(run(w, next, 0) == next);
            1
        } else {
            if let StepView::Read(req) = next {
                assert(files.contains(req.path));
                assert forall|i: int| 0 <= i < entered(next).len() implies files.contains(
                    entered(next)[i],
                ) by {
                    if i < entered(step).len() {
                        assert(entered(next)[i] == entered(step)[i]);
                    }
                }
                lemma_fits(files, entered(next));
            }
            let rest = lemma_run_ends(w, files, next, kind, include_external);
            rest + 1
        }
    }
}

/// Termination. Where the canonical paths that the world gives out are
/// finitely many, every traversal ends after finitely many answers, cyclic
/// imports or not.
pub proof fn lemma_traversal_ends(
    w: World,
    files: Set<Seq<char>>,
    kind: LanguageKind,
    include_external: bool,
    entry: Seq<char>,
) -> (n: nat)
    requires
        files.finite(),
        confined(w, files),
    ensures
        traverse(w, kind, include_external, entry, n) is Done,
{
    let first = begin(kind, include_external, entry);
    lemma_begin_inv(kind, include_external, entry);
    let all = files.insert(entry);
    assert(entered(first) =~= seq![entry]);
    lemma_run_ends(w, all, first, kind, include_external)
}

/// The files whose text is asked for by the first `n` steps from `step` on,
/// in the order in which they are asked for.
pub open spec fn reads(w: World, step: StepView, n: nat) -> Seq<Seq<char>>
    decreases n,
{
    if n == 0 {
        Seq::empty()
    } else {
        let first = match step {
            StepView::Read(req) => seq![req.path],
            _ => Seq::empty(),
        };
        first + reads(w, answer(w, step), (n - 1) as nat)
    }
}

/// From a step of a traversal on, no file is read twice, and but for the
/// one that the step itself may ask for, no file is read that was entered
/// before.
pub proof fn lemma_reads_are_new(
    w: World,
    step: StepView,
    n: nat,
    kind: LanguageKind,
    include_external: bool,
)
    requires
        step.inv(kind, include_external),
    ensures
        reads(w, step, n).no_duplicates(),
        step is Done ==> reads(w, step, n).len() == 0,
        step matches StepView::Read(req) ==> n > 0 ==> reads(w, step, n).len() > 0 && reads(
            w,
            step,
            n,
        )[0] == req.path,
        forall|i: int|
            0 <= i < reads(w, step, n).len() && (i > 0 || !(step is Read)) ==> !entered(
                step,
            ).contains(#[trigger] reads(w, step, n)[i]),
    decreases n,
{
    if n > 0 {
        let next = answer(w, step);
        let later = reads(w, next, (n - 1) as nat);
        lemma_answer_inv(w, step, kind, include_external);
        lemma_progress(w, step);
        lemma_reads_are_new(w, next, (n - 1) as nat, kind, include_external);
        match step {
            StepView::Read(req) => {
                assert(entered(step).last() == req.path);
                assert(entered(step).contains(req.path));
                assert(reads(w, step, n) =~= seq![req.path] + later);
                assert forall|i: int| 0 <= i < later.len() implies !entered(step).contains(
                    #[trigger] later[i],
                ) by {}
                assert forall|i: int, j: int|
                    0 <= i < reads(w, step, n).len() && 0 <= j < reads(w, step, n).len() && i
                        != j implies reads(w, step, n)[i] != reads(w, step, n)[j] by {
                    if i > 0 && j > 0 {
                        assert(later[i - 1] != later[j - 1]);
                    } else if i > 0 {
                        assert(!entered(step).contains(later[i - 1]));
                    } else {
                        assert(!entered(step).contains(later[j - 1]));
                    }
                }
            },
            StepView::Done(result) => {
                assert(reads(w, step, n) =~= later);
            },
            _ => {
                assert(reads(w, step, n) =~= later);
                if let StepView::Read(entering) = next {
                    assert forall|i: int| 0 <= i < later.len() implies !entered(step).contains(
                        #[trigger] later[i],
                    ) by {
                        if i > 0 {
                            assert(!entered(next).contains(later[i]));
                            if entered(step).contains(later[i]) {
                                let k = choose|k: int|
                                    0 <= k < entered(step).len() && entered(step)[k] == later[i];
                                assert(entered(next)[k] == later[i]);
                            }
                        }
                    }
                }
            },
        }
    }
}

/// Cycle safety. In a traversal, no file is read twice: the files whose
/// text is asked for are all different, however the files import each other.
pub proof fn lemma_no_file_read_twice(
    w: World,
    kind: LanguageKind,
    include_external: bool,
    entry: Seq<char>,
    n: nat,
)
    ensures
        reads(w, begin(kind, include_external, entry), n).no_duplicates(),
{
    lemma_begin_inv(kind, include_external, entry);
    lemma_reads_are_new(w, begin(kind, include_external, entry), n, kind, include_external);
}

/// The first of `candidates` that is present in `w`, if any is.
pub open spec fn first_present(w: World, candidates: Seq<Seq<char>>) -> Option<Seq<char>>
    decreases candidates.len(),
{
    if candidates.len() == 0 {
        None
    } else if (w.present)(candidates[0]) {
        Some(candidates[0])
    } else {
        first_present(w, candidates.drop_first())
    }
}

/// The path that a search settles on in `w`: the first candidate that is
/// present, or else the fallback.
pub open spec fn target(
    w: World,
    candidates: Seq<Seq<char>>,
    fallback: Option<Seq<char>>,
) -> Option<Seq<char>> {
    match first_present(w, candidates) {
        Some(path) => Some(path),
        None => fallback,
    }
}

/// What `first_present` finds is present and is preceded by absent
/// candidates only; where it finds nothing, nothing is present.
pub proof fn lemma_first_present(w: World, candidates: Seq<Seq<char>>)
    ensures
        match first_present(w, candidates) {
            Some(path) => exists|k: int|
                {
                    &&& 0 <= k < candidates.len()
                    &&& #[trigger] candidates[k] == path
                    &&& (w.present)(path)
                    &&& forall|j: int| 0 <= j < k ==> !(w.present)(candidates[j])
                },
            None => forall|j: int| 0 <= j < candidates.len() ==> !(w.present)(candidates[j]),
        },
    decreases candidates.len(),
{
    if candidates.len() > 0 && !(w.present)(candidates[0]) {
        let later = candidates.drop_first();
        lemma_first_present(w, later);
        match first_present(w, later) {
            Some(path) => {
                let k = choose|k: int|
                    {
                        &&& 0 <= k < later.len()
                        &&& #[trigger] later[k] == path
                        &&& (w.present)(path)
                        &&& forall|j: int| 0 <= j < k ==> !(w.present)(later[j])
                    };
                assert(candidates[k + 1] == path);
                assert forall|j: int| 0 <= j < k + 1 implies !(w.present)(candidates[j]) by {
                    if j > 0 {
                        assert(later[j - 1] == candidates[j]);
                    }
                }
            },
            None => {
                assert forall|j: int| 0 <= j < candidates.len() implies !(w.present)(
                    candidates[j],
                ) by {
                    if j > 0 {
                        assert(later[j - 1] == candidates[j]);
                    }
                }
            },
        }
    } else if candidates.len() > 0 {
        assert(candidates[0] == candidates[0]);
    }
}

/// The first present candidate wins: a candidate that is present, with none
/// present before it, is what `first_present` finds.
pub proof fn lemma_first_present_at(w: World, candidates: Seq<Seq<char>>, k: int)
    requires
        0 <= k < candidates.len(),
        (w.present)(candidates[k]),
        forall|j: int| 0 <= j < k ==> !(w.present)(#[trigger] candidates[j]),
    ensures
        first_present(w, candidates) == Some(candidates[k]),
    decreases k,
{
    if k > 0 {
        let later = candidates.drop_first();
        assert(!(w.present)(candidates[0]));
        assert forall|j: int| 0 <= j < k - 1 implies !(w.present)(#[trigger] later[j]) by {
            assert(later[j] == candidates[j + 1]);
        }
        assert(later[k - 1] == candidates[k]);
        lemma_first_present_at(w, later, k - 1);
    }
}

/// The step at which the search for the file behind `reference` arrives
/// once the world has said which candidates are present.
pub open spec fn search_outcome(
    w: World,
    s: Scan,
    reference: Seq<char>,
    candidates: Seq<Seq<char>>,
    fallback: Option<Seq<char>>,
    strict: bool,
) -> StepView {
    match target(w, candidates, fallback) {
        Some(path) => StepView::Canonicalize(
            CanonicalizeView { state: s, reference, path, strict },
        ),
        None => advance(s.note_external(reference)),
    }
}

/// Search order. A search asks about its candidates in order and settles on
/// the first that is present, without asking about any later one; with none
/// present it settles on its fallback. It takes at most one answer per
/// candidate.
pub proof fn lemma_search_settles(
    w: World,
    s: Scan,
    reference: Seq<char>,
    candidates: Seq<Seq<char>>,
    fallback: Option<Seq<char>>,
    strict: bool,
) -> (n: nat)
    ensures
        n <= candidates.len(),
        run(w, look(s, reference, candidates, fallback, strict), n) == search_outcome(
            w,
            s,
            reference,
            candidates,
            fallback,
            strict,
        ),
    decreases candidates.len(),
{
    if candidates.len() == 0 {
        0
    } else if (w.present)(candidates[0]) {
        let asked = look(s, reference, candidates, fallback, strict);
        assert(run(w, answer(w, asked), 0) == answer(w, asked));
        1
    } else {
        let asked = look(s, reference, candidates, fallback, strict);
        let later = candidates.drop_first();
        let rest = lemma_search_settles(w, s, reference, later, fallback, strict);
        assert(answer(w, asked) == look(s, reference, later, fallback, strict));
        rest + 1
    }
}

} // verus!
