//! Pattern matching, left to the `regex` crate.

use crate::text::{join_text, texts_view};
use vstd::prelude::*;

verus! {

/// What one match of a pattern captured: one entry per group, the whole
/// match first; `None` for a group that took no part in the match.
pub type Groups = Seq<Option<Seq<char>>>;

/// What `Regex::new` has against `pattern`: nothing where it compiles the
/// pattern, else the text of the error it returns.
pub uninterp spec fn regex_error(pattern: Seq<char>) -> Option<Seq<char>>;

/// What `Regex::captures_iter` yields on `haystack` for the regex that
/// `Regex::new` makes of `pattern`: the groups of each successive match.
pub uninterp spec fn regex_captures(pattern: Seq<char>, haystack: Seq<char>) -> Seq<Groups>;

/// The text of group `i`, if the match has such a group and it took part.
pub open spec fn group(groups: Groups, i: int) -> Option<Seq<char>> {
    if 0 <= i < groups.len() {
        groups[i]
    } else {
        None
    }
}

/// The reference that one match stands for: the text of group `first`, or
/// else that of group `second`.
pub open spec fn picked(groups: Groups, first: int, second: int) -> Option<Seq<char>> {
    match group(groups, first) {
        Some(text) => Some(text),
        None => group(groups, second),
    }
}

/// The references that a run of matches stands for, in the order of the
/// matches. A match in which neither group took part stands for none.
pub open spec fn references_in(found: Seq<Groups>, first: int, second: int) -> Seq<Seq<char>>
    decreases found.len(),
{
    if found.len() == 0 {
        seq![]
    } else {
        let earlier = references_in(found.drop_last(), first, second);
        match picked(found.last(), first, second) {
            Some(text) => earlier.push(text),
            None => earlier,
        }
    }
}

/// The references that `pattern` finds in `content`, or the message that
/// says why the pattern could not be used.
pub open spec fn references_of(
    pattern: Seq<char>,
    content: Seq<char>,
    first: int,
    second: int,
) -> Result<Seq<Seq<char>>, Seq<char>> {
    match regex_error(pattern) {
        None => Ok(references_in(regex_captures(pattern, content), first, second)),
        Some(reason) => Err("Failed to create regex: "@ + reason),
    }
}

/// Any text is tolerated. Whether references can be looked for depends on
/// the pattern alone: no content makes the search fail, and where the
/// pattern does, the failure is the same for every content.
pub proof fn lemma_any_text_is_tolerated(
    pattern: Seq<char>,
    first: int,
    second: int,
    content: Seq<char>,
    other: Seq<char>,
)
    ensures
        references_of(pattern, content, first, second) is Ok <==> references_of(
            pattern,
            other,
            first,
            second,
        ) is Ok,
        references_of(pattern, content, first, second) is Err ==> references_of(
            pattern,
            content,
            first,
            second,
        ) == references_of(pattern, other, first, second),
{
}

/// Compiles `pattern` with `regex::Regex::new` and collects what
/// `Regex::captures_iter` yields on `haystack`, each group turned into its
/// text with `Match::as_str`. A pattern that does not compile gives the
/// error's `Display` text. Trusted: success and the error's text are what
/// `regex_error` names, and the matches are what `regex_captures` names.
#[verifier::external_body]
pub(crate) fn capture_groups(pattern: &str, haystack: &str) -> (r: Result<
    Vec<Vec<Option<String>>>,
    String,
>)
    ensures
        match r {
            Ok(found) => regex_error(pattern@) is None && found.deep_view() == regex_captures(
                pattern@,
                haystack@,
            ),
            Err(reason) => regex_error(pattern@) == Some(reason@),
        },
{
    match regex::Regex::new(pattern) {
        Ok(re) => Ok(
            re.captures_iter(haystack).map(
                |c| c.iter().map(|m| m.map(|g| g.as_str().to_string())).collect(),
            ).collect(),
        ),
        Err(e) => Err(e.to_string()),
    }
}

/// The text of group `i` of one match.
pub fn group_text(groups: &Vec<Option<String>>, i: usize) -> (r: Option<String>)
    ensures
        r.deep_view() == group(groups.deep_view(), i as int),
{
    if i < groups.len() {
        proof {
            assert(groups.deep_view()[i as int] == groups[i as int].deep_view());
        }
        groups[i].clone()
    } else {
        None
    }
}

/// Picks from each match the text of group `first`, or else of group
/// `second`, and leaves out the matches that have neither.
pub fn pick_groups(found: &Vec<Vec<Option<String>>>, first: usize, second: usize) -> (r: Vec<
    String,
>)
    ensures
        r.deep_view() == references_in(found.deep_view(), first as int, second as int),
{
    let mut out: Vec<String> = Vec::new();
    let mut i: usize = 0;
    proof {
        assert(found.deep_view().take(0) =~= Seq::<Groups>::empty());
        assert(out.deep_view() =~= Seq::<Seq<char>>::empty());
    }
    while i < found.len()
        invariant
            i <= found.len(),
            out.deep_view() == references_in(
                found.deep_view().take(i as int),
                first as int,
                second as int,
            ),
        decreases found.len() - i,
    {
        let ghost before = out.deep_view();
        let ghost upto = found.deep_view().take(i + 1);
        proof {
            assert(upto.drop_last() =~= found.deep_view().take(i as int));
            assert(upto.last() == found[i as int].deep_view());
        }
        let choice: Option<String> = match group_text(&found[i], first) {
            Some(text) => Some(text),
            None => group_text(&found[i], second),
        };
        match choice {
            Some(text) => {
                out.push(text);
                proof {
                    assert(out.deep_view() =~= before.push(text@));
                }
            },
            None => {},
        }
        i = i + 1;
    }
    proof {
        assert(found.deep_view().take(found.len() as int) =~= found.deep_view());
    }
    out
}

/// Runs `pattern` over `content` and picks from each match the text of group
/// `first`, or else of group `second`. Every pattern and every content is
/// accepted; a pattern that does not compile is reported in the error.
pub fn find_references(pattern: &str, content: &str, first: usize, second: usize) -> (r: Result<
    Vec<String>,
    String,
>)
    ensures
        texts_view(r) == references_of(pattern@, content@, first as int, second as int),
{
    match capture_groups(pattern, content) {
        Ok(found) => Ok(pick_groups(&found, first, second)),
        Err(reason) => Err(join_text("Failed to create regex: ", reason.as_str())),
    }
}

} // verus!
