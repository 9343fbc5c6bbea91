//! Searching and cutting sequences of characters: the text operations that the frame rules are
//! stated in.

use vstd::prelude::*;
use vstd::slice::{slice_subrange, slice_to_vec};
use vstd::std_specs::iter::IteratorSpec;

verus! {

/// Position of the first `c` in `s`; `s.len()` where `s` holds none.
pub open spec fn first_index_of(s: Seq<char>, c: char) -> int
    decreases s.len(),
{
    if s.len() == 0 || s[0] == c {
        0
    } else {
        1 + first_index_of(s.drop_first(), c)
    }
}

/// Position of the last `c` in `s`; -1 where `s` holds none.
pub open spec fn last_index_of(s: Seq<char>, c: char) -> int
    decreases s.len(),
{
    if s.len() == 0 {
        -1
    } else if s.last() == c {
        s.len() - 1
    } else {
        last_index_of(s.drop_last(), c)
    }
}

/// Position at which `pat` first occurs in `s`; `s.len()` where it does not occur. The empty
/// `pat` occurs at 0.
pub open spec fn first_occurrence(s: Seq<char>, pat: Seq<char>) -> int
    decreases s.len(),
{
    if s.len() == 0 || pat.is_prefix_of(s) {
        0
    } else {
        1 + first_occurrence(s.drop_first(), pat)
    }
}

/// `pat` occurs somewhere in `s`.
pub open spec fn occurs_in(s: Seq<char>, pat: Seq<char>) -> bool {
    first_occurrence(s, pat) + pat.len() <= s.len()
}

/// The pieces of `s` between occurrences of `sep`, in order. There is always at least one piece,
/// and a piece may be empty.
pub open spec fn split(s: Seq<char>, sep: char) -> Seq<Seq<char>>
    decreases s.len(),
{
    let i = first_index_of(s, sep);
    if 0 <= i < s.len() {
        seq![s.take(i)] + split(s.skip(i + 1), sep)
    } else {
        seq![s]
    }
}

/// The pieces put together again with `sep` between them.
pub open spec fn join(pieces: Seq<Seq<char>>, sep: char) -> Seq<char>
    decreases pieces.len(),
{
    if pieces.len() == 0 {
        Seq::empty()
    } else if pieces.len() == 1 {
        pieces[0]
    } else {
        pieces[0] + seq![sep] + join(pieces.drop_first(), sep)
    }
}

/// A carriage return at the end of `s` is dropped.
pub open spec fn without_carriage_return(s: Seq<char>) -> Seq<char> {
    if s.len() > 0 && s.last() == '\r' {
        s.drop_last()
    } else {
        s
    }
}

/// The lines of `s`. A line ends at a line feed, or at a carriage return directly followed by
/// one; neither is part of the line. What follows the last line feed is a line of its own unless
/// it is empty, and keeps a carriage return at its end.
pub open spec fn lines(s: Seq<char>) -> Seq<Seq<char>> {
    let pieces = split(s, '\n');
    let ended = Seq::new(
        (pieces.len() - 1) as nat,
        |i: int| without_carriage_return(pieces[i]),
    );
    if pieces.last().len() > 0 {
        ended.push(pieces.last())
    } else {
        ended
    }
}

/// The test for being the character `c`.
pub open spec fn exactly(c: char) -> spec_fn(char) -> bool {
    |x: char| x == c
}

/// `s` without the longest run at its start of characters that pass `test`.
pub open spec fn strip_start(s: Seq<char>, test: spec_fn(char) -> bool) -> Seq<char>
    decreases s.len(),
{
    if s.len() > 0 && test(s[0]) {
        strip_start(s.drop_first(), test)
    } else {
        s
    }
}

/// `s` without the longest run at its end of characters that pass `test`.
pub open spec fn strip_end(s: Seq<char>, test: spec_fn(char) -> bool) -> Seq<char>
    decreases s.len(),
{
    if s.len() > 0 && test(s.last()) {
        strip_end(s.drop_last(), test)
    } else {
        s
    }
}

/// `strip_start` cuts at `k`, given that everything before `k` passes the test and that `k` is
/// the end of `s` or a position that fails it.
pub proof fn lemma_strip_start(s: Seq<char>, test: spec_fn(char) -> bool, k: int)
    requires
        0 <= k <= s.len(),
        forall|j: int| 0 <= j < k ==> test(#[trigger] s[j]),
        k < s.len() ==> !test(s[k]),
    ensures
        strip_start(s, test) == s.skip(k),
    decreases s.len(),
{
    if k > 0 {
        let t = s.drop_first();
        assert forall|j: int| 0 <= j < k - 1 implies test(#[trigger] t[j]) by {
            assert(t[j] == s[j + 1]);
        }
        lemma_strip_start(t, test, k - 1);
        assert(t.skip(k - 1) == s.skip(k));
    } else {
        assert(s.skip(0) == s);
    }
}

/// `strip_end` cuts at `k`, given that everything from `k` on passes the test and that `k` is
/// the start of `s` or follows a position that fails it.
pub proof fn lemma_strip_end(s: Seq<char>, test: spec_fn(char) -> bool, k: int)
    requires
        0 <= k <= s.len(),
        forall|j: int| k <= j < s.len() ==> test(#[trigger] s[j]),
        k > 0 ==> !test(s[k - 1]),
    ensures
        strip_end(s, test) == s.take(k),
    decreases s.len(),
{
    if k < s.len() {
        let t = s.drop_last();
        lemma_strip_end(t, test, k);
        assert(t.take(k) == s.take(k));
    } else {
        assert(s.take(k) == s);
    }
}

/// `i` is the first position of `c` in `s`, given that nothing before `i` is `c` and that `i` is
/// either the end of `s` or a position that holds `c`.
pub proof fn lemma_first_index_of(s: Seq<char>, c: char, i: int)
    requires
        0 <= i <= s.len(),
        forall|k: int| 0 <= k < i ==> s[k] != c,
        i < s.len() ==> s[i] == c,
    ensures
        first_index_of(s, c) == i,
    decreases s.len(),
{
    if i > 0 {
        lemma_first_index_of(s.drop_first(), c, i - 1);
    }
}

/// Where `first_index_of` points: inside `s` at a `c` with none before it, or at the end of an
/// `s` without any.
pub proof fn lemma_first_index_of_bounds(s: Seq<char>, c: char)
    ensures
        0 <= first_index_of(s, c) <= s.len(),
        forall|k: int| 0 <= k < first_index_of(s, c) ==> s[k] != c,
        first_index_of(s, c) < s.len() ==> s[first_index_of(s, c)] == c,
    decreases s.len(),
{
    if s.len() == 0 || s[0] == c {
    } else {
        let t = s.drop_first();
        lemma_first_index_of_bounds(t, c);
        assert forall|k: int| 0 <= k < first_index_of(s, c) implies s[k] != c by {
            if k > 0 {
                assert(s[k] == t[k - 1]);
            }
        }
    }
}

/// `i` is the last position of `c` in `s`, given that nothing after `i` is `c` and that `i` is
/// either -1 or a position that holds `c`.
pub proof fn lemma_last_index_of(s: Seq<char>, c: char, i: int)
    requires
        -1 <= i < s.len(),
        forall|k: int| i < k < s.len() ==> s[k] != c,
        0 <= i ==> s[i] == c,
    ensures
        last_index_of(s, c) == i,
    decreases s.len(),
{
    if s.len() > 0 && i < s.len() - 1 {
        lemma_last_index_of(s.drop_last(), c, i);
    }
}

/// Where `last_index_of` points: inside `s` at a `c` with none after it, or at -1 for an `s`
/// without any.
pub proof fn lemma_last_index_of_bounds(s: Seq<char>, c: char)
    ensures
        -1 <= last_index_of(s, c) < s.len(),
        forall|k: int| last_index_of(s, c) < k < s.len() ==> s[k] != c,
        0 <= last_index_of(s, c) ==> s[last_index_of(s, c)] == c,
    decreases s.len(),
{
    if s.len() > 0 && s.last() != c {
        let t = s.drop_last();
        lemma_last_index_of_bounds(t, c);
        assert forall|k: int| last_index_of(s, c) < k < s.len() implies s[k] != c by {
            if k < t.len() {
                assert(s[k] == t[k]);
            }
        }
    }
}

/// `i` is where `pat` first occurs in `s`, given that `pat` starts at no earlier position and
/// that `i` is either the end of `s` or a position where `pat` starts.
pub proof fn lemma_first_occurrence(s: Seq<char>, pat: Seq<char>, i: int)
    requires
        0 <= i <= s.len(),
        forall|k: int| 0 <= k < i ==> !pat.is_prefix_of(#[trigger] s.skip(k)),
        i < s.len() ==> pat.is_prefix_of(s.skip(i)),
    ensures
        first_occurrence(s, pat) == i,
    decreases s.len(),
{
    assert(s.skip(0) == s);
    if i > 0 {
        let t = s.drop_first();
        assert forall|k: int| 0 <= k < i - 1 implies !pat.is_prefix_of(#[trigger] t.skip(k)) by {
            assert(t.skip(k) == s.skip(k + 1));
        }
        if i < s.len() {
            assert(t.skip(i - 1) == s.skip(i));
        }
        lemma_first_occurrence(t, pat, i - 1);
    }
}

/// Cutting loses nothing and leaves no separator behind: there is at least one piece, no piece
/// holds `sep`, and the pieces joined with `sep` are `s` again.
pub proof fn lemma_split_join(s: Seq<char>, sep: char)
    ensures
        split(s, sep).len() >= 1,
        forall|i: int|
            0 <= i < split(s, sep).len() ==> !(#[trigger] split(s, sep)[i]).contains(sep),
        join(split(s, sep), sep) == s,
    decreases s.len(),
{
    let i = first_index_of(s, sep);
    lemma_first_index_of_bounds(s, sep);
    if i < s.len() {
        let rest = split(s.skip(i + 1), sep);
        lemma_split_join(s.skip(i + 1), sep);
        let pieces = split(s, sep);
        assert(pieces == seq![s.take(i)] + rest);
        assert(pieces.drop_first() == rest);
        assert(s == s.take(i) + seq![sep] + s.skip(i + 1));
        assert forall|k: int| 0 <= k < pieces.len() implies !(#[trigger] pieces[k]).contains(
            sep,
        ) by {
            if k > 0 {
                assert(pieces[k] == rest[k - 1]);
            }
        }
    }
}

/// The first `c` in `chars`, if any.
pub fn find_char(chars: &[char], c: char) -> (r: Option<usize>)
    ensures
        match r {
            Some(i) => i < chars@.len() && chars@[i as int] == c && i == first_index_of(chars@, c),
            None => first_index_of(chars@, c) == chars@.len(),
        },
{
    let n = chars.len();
    let mut i: usize = 0;
    while i < n
        invariant
            i <= n,
            n == chars@.len(),
            forall|k: int| 0 <= k < i ==> chars@[k] != c,
        decreases n - i,
    {
        if chars[i] == c {
            proof {
                lemma_first_index_of(chars@, c, i as int);
            }
            return Some(i);
        }
        i += 1;
    }
    proof {
        lemma_first_index_of(chars@, c, n as int);
    }
    None
}

/// The last `c` in `chars`, if any.
pub fn rfind_char(chars: &[char], c: char) -> (r: Option<usize>)
    ensures
        match r {
            Some(i) => i < chars@.len() && chars@[i as int] == c && i == last_index_of(chars@, c),
            None => last_index_of(chars@, c) == -1,
        },
{
    let n = chars.len();
    let mut i: usize = n;
    while i > 0
        invariant
            i <= n,
            n == chars@.len(),
            forall|k: int| i <= k < n ==> chars@[k] != c,
        decreases i,
    {
        i -= 1;
        if chars[i] == c {
            proof {
                lemma_last_index_of(chars@, c, i as int);
            }
            return Some(i);
        }
    }
    proof {
        lemma_last_index_of(chars@, c, -1);
    }
    None
}

/// Whether `pat` starts at position `at` of `chars`.
pub fn starts_at(chars: &[char], at: usize, pat: &[char]) -> (b: bool)
    requires
        at <= chars@.len(),
    ensures
        b == pat@.is_prefix_of(chars@.skip(at as int)),
{
    let n = chars.len();
    let m = pat.len();
    if m > n - at {
        return false;
    }
    let ghost rest = chars@.skip(at as int);
    let mut j: usize = 0;
    while j < m
        invariant
            j <= m,
            m == pat@.len(),
            n == chars@.len(),
            at + m <= n,
            rest == chars@.skip(at as int),
            forall|k: int| 0 <= k < j ==> pat@[k] == rest[k],
        decreases m - j,
    {
        if chars[at + j] != pat[j] {
            assert(rest[j as int] != pat@[j as int]);
            return false;
        }
        j += 1;
    }
    assert(rest.subrange(0, m as int) == pat@);
    true
}

/// Where `pat` first occurs in `chars`, if it does. The empty `pat` occurs at the start of any
/// `chars`.
pub fn find_sub(chars: &[char], pat: &[char]) -> (r: Option<usize>)
    ensures
        r.is_some() == occurs_in(chars@, pat@),
        match r {
            Some(i) => i + pat@.len() <= chars@.len() && i == first_occurrence(chars@, pat@),
            None => first_occurrence(chars@, pat@) == chars@.len(),
        },
{
    let n = chars.len();
    if pat.len() == 0 {
        assert(pat@.is_prefix_of(chars@));
        return Some(0);
    }
    let mut i: usize = 0;
    while i < n
        invariant
            i <= n,
            n == chars@.len(),
            forall|k: int| 0 <= k < i ==> !pat@.is_prefix_of(#[trigger] chars@.skip(k)),
        decreases n - i,
    {
        if starts_at(chars, i, pat) {
            proof {
                lemma_first_occurrence(chars@, pat@, i as int);
            }
            return Some(i);
        }
        i += 1;
    }
    proof {
        lemma_first_occurrence(chars@, pat@, n as int);
    }
    None
}

/// Cuts `chars` at every `sep`.
pub fn split_on(chars: &[char], sep: char) -> (pieces: Vec<Vec<char>>)
    ensures
        pieces.deep_view() == split(chars@, sep),
        pieces.len() >= 1,
{
    let n = chars.len();
    let mut pieces: Vec<Vec<char>> = Vec::new();
    let mut start: usize = 0;
    let mut i: usize = 0;
    assert(chars@.skip(0) == chars@);
    while i < n
        invariant
            start <= i <= n,
            n == chars@.len(),
            forall|k: int| start <= k < i ==> chars@[k] != sep,
            pieces.deep_view() + split(chars@.skip(start as int), sep) == split(chars@, sep),
        decreases n - i,
    {
        if chars[i] == sep {
            let piece = slice_to_vec(slice_subrange(chars, start, i));
            let ghost rest = chars@.skip(start as int);
            let ghost before = pieces.deep_view();
            proof {
                lemma_first_index_of(rest, sep, i - start);
                assert(rest.take(i - start) == piece@);
                assert(rest.skip(i - start + 1) == chars@.skip(i + 1));
            }
            pieces.push(piece);
            assert(piece.deep_view() =~= piece@);
            assert(pieces.deep_view() =~= before + seq![piece@]);
            start = i + 1;
        }
        i += 1;
    }
    let last = slice_to_vec(slice_subrange(chars, start, n));
    let ghost before = pieces.deep_view();
    proof {
        lemma_first_index_of(chars@.skip(start as int), sep, n - start);
        assert(chars@.skip(start as int) == last@);
    }
    pieces.push(last);
    assert(last.deep_view() =~= last@);
    assert(pieces.deep_view() =~= before + seq![last@]);
    pieces
}

/// `chars` without the `c`s at its start.
pub fn trim_start_matches(chars: &[char], c: char) -> (trimmed: &[char])
    ensures
        trimmed@ == strip_start(chars@, exactly(c)),
{
    let n = chars.len();
    let mut start: usize = 0;
    while start < n && chars[start] == c
        invariant
            start <= n,
            n == chars@.len(),
            forall|j: int| 0 <= j < start ==> #[trigger] chars@[j] == c,
        decreases n - start,
    {
        start += 1;
    }
    proof {
        lemma_strip_start(chars@, exactly(c), start as int);
    }
    slice_subrange(chars, start, n)
}

/// `chars` without the `c`s at its end.
pub fn trim_end_matches(chars: &[char], c: char) -> (trimmed: &[char])
    ensures
        trimmed@ == strip_end(chars@, exactly(c)),
{
    let n = chars.len();
    let mut end: usize = n;
    while end > 0 && chars[end - 1] == c
        invariant
            end <= n,
            n == chars@.len(),
            forall|j: int| end <= j < n ==> #[trigger] chars@[j] == c,
        decreases end,
    {
        end -= 1;
    }
    proof {
        lemma_strip_end(chars@, exactly(c), end as int);
    }
    slice_subrange(chars, 0, end)
}

/// Cuts `chars` into its lines.
pub fn lines_of(chars: &[char]) -> (result: Vec<Vec<char>>)
    ensures
        result.deep_view() == lines(chars@),
{
    let pieces = split_on(chars, '\n');
    let ghost all = pieces.deep_view();
    let count = pieces.len() - 1;
    let mut result: Vec<Vec<char>> = Vec::new();
    for i in 0..count
        invariant
            count == pieces.len() - 1,
            all == pieces.deep_view(),
            result.deep_view() == Seq::new(i as nat, |k: int| without_carriage_return(all[k])),
    {
        let piece = pieces[i].as_slice();
        let n = piece.len();
        let line = if n > 0 && piece[n - 1] == '\r' {
            slice_to_vec(slice_subrange(piece, 0, n - 1))
        } else {
            slice_to_vec(piece)
        };
        proof {
            assert(pieces[i as int].deep_view() =~= piece@);
            assert(line.deep_view() =~= line@);
            assert(line@ == without_carriage_return(all[i as int]));
        }
        let ghost before = result.deep_view();
        result.push(line);
        assert(result.deep_view() =~= before.push(line@));
    }
    let last = slice_to_vec(pieces[count].as_slice());
    proof {
        assert(pieces[count as int].deep_view() =~= last@);
        assert(last.deep_view() =~= last@);
    }
    if last.len() > 0 {
        let ghost before = result.deep_view();
        result.push(last);
        assert(result.deep_view() =~= before.push(last@));
    }
    result
}

/// The characters of `s`, in order.
pub fn chars_of(s: &str) -> (v: Vec<char>)
    ensures
        v@ == s@,
{
    let mut v: Vec<char> = Vec::new();
    for c in it: s.chars()
        invariant
            it.seq() == s@,
            v@ == it.seq().take(it.index()),
    {
        v.push(c);
    }
    v
}

/// `String::from_iter` over a slice of characters: the string made of exactly these characters,
/// in this order.
#[verifier::external_body]
pub(crate) fn string_of(chars: &[char]) -> (s: String)
    ensures
        s@ == chars@,
{
    String::from_iter(chars)
}

} // verus!
