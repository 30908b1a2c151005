//! Small operations on strings, stated over their sequences of characters.

use vstd::prelude::*;
use vstd::string::StringExecFns;
use vstd::string::StrSliceExecFns;

verus! {

/// The position of the first `c` in `s` at or after `from`, or `s.len()` when
/// there is none.
pub open spec fn find(s: Seq<char>, c: char, from: int) -> int
    decreases s.len() - from,
{
    if from < 0 || from >= s.len() {
        s.len() as int
    } else if s[from] == c {
        from
    } else {
        find(s, c, from + 1)
    }
}

/// The pieces of `s` from position `from` on that lie between occurrences of
/// `sep`. There is always at least one piece; pieces may be empty.
pub open spec fn pieces_from(s: Seq<char>, sep: char, from: int) -> Seq<Seq<char>>
    decreases s.len() - from,
{
    let k = find(s, sep, from);
    if !(0 <= from <= k < s.len()) {
        seq![s.subrange(from, s.len() as int)]
    } else {
        seq![s.subrange(from, k)] + pieces_from(s, sep, k + 1)
    }
}

/// `s` cut at every `sep`.
pub open spec fn pieces(s: Seq<char>, sep: char) -> Seq<Seq<char>> {
    pieces_from(s, sep, 0)
}

/// The part of `s` before its first `sep`, or all of `s` when it has none.
pub open spec fn head(s: Seq<char>, sep: char) -> Seq<char> {
    s.subrange(0, find(s, sep, 0))
}

/// A text or an error message, as sequences of characters.
pub open spec fn text_view(r: Result<String, String>) -> Result<Seq<char>, Seq<char>> {
    match r {
        Ok(text) => Ok(text@),
        Err(message) => Err(message@),
    }
}

/// A list of texts or an error message, as sequences of characters.
pub open spec fn texts_view(r: Result<Vec<String>, String>) -> Result<Seq<Seq<char>>, Seq<char>> {
    match r {
        Ok(texts) => Ok(texts.deep_view()),
        Err(message) => Err(message@),
    }
}

pub proof fn lemma_find_bounds(s: Seq<char>, c: char, from: int)
    requires
        0 <= from <= s.len(),
    ensures
        from <= find(s, c, from) <= s.len(),
        find(s, c, from) < s.len() ==> s[find(s, c, from)] == c,
        forall|i: int| from <= i < find(s, c, from) ==> s[i] != c,
    decreases s.len() - from,
{
    if from < s.len() && s[from] != c {
        lemma_find_bounds(s, c, from + 1);
    }
}

/// `parts` put together with one `sep` between each two of them.
pub open spec fn joined(parts: Seq<Seq<char>>, sep: char) -> Seq<char>
    decreases parts.len(),
{
    if parts.len() == 0 {
        Seq::empty()
    } else if parts.len() == 1 {
        parts[0]
    } else {
        parts[0] + seq![sep] + joined(parts.drop_first(), sep)
    }
}

/// Whether `sep` occurs in none of `parts`.
pub open spec fn free_of(parts: Seq<Seq<char>>, sep: char) -> bool {
    forall|i: int, j: int| 0 <= i < parts.len() && 0 <= j < parts[i].len() ==> parts[i][j] != sep
}

/// The pieces of `s` from `from` on hold no `sep`, and put together with
/// `sep` they are `s` from `from` on.
pub proof fn lemma_pieces_from(s: Seq<char>, sep: char, from: int)
    requires
        0 <= from <= s.len(),
    ensures
        pieces_from(s, sep, from).len() >= 1,
        free_of(pieces_from(s, sep, from), sep),
        joined(pieces_from(s, sep, from), sep) == s.subrange(from, s.len() as int),
    decreases s.len() - from,
{
    let k = find(s, sep, from);
    lemma_find_bounds(s, sep, from);
    let first = s.subrange(from, k);
    if k < s.len() {
        let later = pieces_from(s, sep, k + 1);
        let all = pieces_from(s, sep, from);
        lemma_pieces_from(s, sep, k + 1);
        assert(all =~= seq![first] + later);
        assert(all.drop_first() =~= later);
        assert(all[0] == first);
        assert(joined(all, sep) == first + seq![sep] + joined(later, sep));
        assert(first + seq![sep] + s.subrange(k + 1, s.len() as int) =~= s.subrange(
            from,
            s.len() as int,
        ));
        assert forall|i: int, j: int| 0 <= i < all.len() && 0 <= j < all[i].len() implies all[i][j]
            != sep by {
            if i == 0 {
                assert(all[0][j] == s[from + j]);
            } else {
                assert(all[i] == later[i - 1]);
            }
        }
    } else {
        let all = pieces_from(s, sep, from);
        assert(all =~= seq![s.subrange(from, s.len() as int)]);
        assert forall|i: int, j: int| 0 <= i < all.len() && 0 <= j < all[i].len() implies all[i][j]
            != sep by {
            assert(all[0][j] == s[from + j]);
        }
    }
}

/// Cutting loses nothing. The pieces of `s` hold no `sep`, and put together
/// with `sep` between them they are `s` again.
pub proof fn lemma_pieces(s: Seq<char>, sep: char)
    ensures
        pieces(s, sep).len() >= 1,
        free_of(pieces(s, sep), sep),
        joined(pieces(s, sep), sep) == s,
{
    lemma_pieces_from(s, sep, 0);
    assert(s.subrange(0, s.len() as int) =~= s);
}

/// The part of `s` before its first `sep` is the first of its pieces.
pub proof fn lemma_head_is_first_piece(s: Seq<char>, sep: char)
    ensures
        pieces(s, sep).len() >= 1,
        pieces(s, sep)[0] == head(s, sep),
{
    lemma_find_bounds(s, sep, 0);
}

/// Whether two strings hold the same characters.
pub fn same_text(a: &str, b: &str) -> (r: bool)
    ensures
        r == (a@ == b@),
{
    a.to_owned() == b.to_owned()
}

/// Whether `names` holds `name`.
pub fn holds_name(names: &Vec<&str>, name: &str) -> (r: bool)
    ensures
        r == names.deep_view().contains(name@),
{
    let mut i: usize = 0;
    while i < names.len()
        invariant
            i <= names.len(),
            forall|j: int| 0 <= j < i ==> names.deep_view()[j] != name@,
        decreases names.len() - i,
    {
        proof {
            assert(names.deep_view()[i as int] == names[i as int]@);
        }
        if same_text(names[i], name) {
            return true;
        }
        i = i + 1;
    }
    false
}

/// `a` followed by `b`.
pub fn join_text(a: &str, b: &str) -> (r: String)
    ensures
        r@ == a@ + b@,
{
    String::from_str(a).concat(b)
}

/// The position of the first `c` in `s` at or after `from`, or the length
/// of `s` when there is none.
pub fn find_char(s: &str, c: char, from: usize) -> (k: usize)
    ensures
        k == find(s@, c, from as int),
        k <= s@.len(),
        from <= s@.len() ==> from <= k,
{
    let n: usize = s.unicode_len();
    if from >= n {
        return n;
    }
    let mut i: usize = from;
    while i < n
        invariant
            n == s@.len(),
            from <= i <= n,
            find(s@, c, from as int) == find(s@, c, i as int),
        decreases n - i,
    {
        if s.get_char(i) == c {
            return i;
        }
        i = i + 1;
    }
    i
}

/// The part of `s` before its first `sep`.
pub fn head_of(s: &str, sep: char) -> (r: String)
    ensures
        r@ == head(s@, sep),
{
    let k: usize = find_char(s, sep, 0);
    s.substring_char(0, k).to_owned()
}

/// Cuts `s` at every `sep`.
pub fn split_text(s: &str, sep: char) -> (r: Vec<String>)
    ensures
        r.deep_view() == pieces(s@, sep),
{
    let n: usize = s.unicode_len();
    let mut out: Vec<String> = Vec::new();
    let mut start: usize = 0;
    loop
        invariant
            n == s@.len(),
            start <= n,
            out.deep_view() + pieces_from(s@, sep, start as int) == pieces(s@, sep),
        decreases n - start,
    {
        let k: usize = find_char(s, sep, start);
        let piece: String = s.substring_char(start, k).to_owned();
        let ghost before = out.deep_view();
        out.push(piece);
        proof {
            assert(out.deep_view() =~= before.push(s@.subrange(start as int, k as int)));
        }
        if k >= n {
            proof {
                assert(pieces_from(s@, sep, start as int) =~= seq![s@.subrange(start as int, n as int)]);
                assert(out.deep_view() =~= before + pieces_from(s@, sep, start as int));
            }
            return out;
        }
        proof {
            assert(before + pieces_from(s@, sep, start as int) =~= out.deep_view() + pieces_from(
                s@,
                sep,
                k + 1,
            ));
        }
        start = k + 1;
    }
}

/// Whether `s` begins with `c`.
pub fn begins_with(s: &str, c: char) -> (r: bool)
    ensures
        r == (s@.len() > 0 && s@[0] == c),
{
    s.unicode_len() > 0 && s.get_char(0) == c
}

} // verus!
