//! The three conventions in which a stack-trace line names a call site, and what each makes of
//! a line that it matches.
//!
//! The conventions are regular expressions, compiled and run by the `regex` crate. What that
//! crate returns is taken on trust and given a name; what is made of the captured groups is
//! verified here.

use crate::digits::{parse_u32, parsed_u32};
use crate::frame::{FrameView, StackFrame};
use crate::text::{chars_of, last_index_of, lemma_last_index_of_bounds, rfind_char, string_of};
use regex::Regex;
use vstd::prelude::*;
use vstd::slice::slice_subrange;

verus! {

/// `at <name> (<location>)`: the bracketed-call convention.
pub const BRACKETED_CALL: &'static str = r"at\s+([^\s\(]+)?\s*(\(([^)]+)\))?";

/// `<name>@<path>:<line>:<column>`, where the path may hold anything: the at-sign convention
/// with a full path.
pub const AT_SIGN_PATH: &'static str = r"([^@]*)@(.+):(\d+):(\d+)";

/// `<name>@<location>:<line>:<column>`, where the location holds no colon: the at-sign
/// convention with a bare location.
pub const AT_SIGN_BARE: &'static str = r"([^@]*)@([^:]+):(\d+):(\d+)";

/// The name given to a frame whose line names no function.
pub const ANONYMOUS: &'static str = "<anonymous>";

/// A compiled regular expression of the `regex` crate. Nothing is known of what is inside
/// one; it is made by `compile` and handed to `captures`.
#[verifier::external_type_specification]
#[verifier::external_body]
pub struct ExRegex(Regex);

/// What `Regex::new` makes of a pattern: the compiled expression, or `None` where it reports
/// an error, the pattern being malformed or larger when compiled than the crate's default
/// limit.
pub uninterp spec fn regex_new(pattern: Seq<char>) -> Option<Regex>;

/// What `Regex::captures` finds in a haystack: `None` where the expression matches nowhere,
/// else the groups of the leftmost match, group 0 (the whole match) first, each with the text
/// that it captured or `None` where it took no part in the match.
pub uninterp spec fn regex_captures(re: Regex, haystack: Seq<char>) -> Option<Seq<Option<Seq<char>>>>;

/// `Regex::new`, with the error dropped. The result is the one that `regex_new` names.
#[verifier::external_body]
pub(crate) fn compile(pattern: &str) -> (r: Option<Regex>)
    ensures
        r == regex_new(pattern@),
{
    Regex::new(pattern).ok()
}

/// `Regex::captures`, with every group of the match copied out as a string (`Captures::iter`,
/// `Match::as_str`). The result is the one that `regex_captures` names.
#[verifier::external_body]
pub(crate) fn captures(re: &Regex, haystack: &str) -> (r: Option<Vec<Option<String>>>)
    ensures
        r.deep_view() == regex_captures(*re, haystack@),
{
    let found = re.captures(haystack)?;
    Some(found.iter().map(|g| g.map(|m| m.as_str().to_string())).collect())
}

/// Group `i` of a match; `None` where the match has no such group or the group took no part.
pub open spec fn group(groups: Seq<Option<Seq<char>>>, i: int) -> Option<Seq<char>> {
    if 0 <= i < groups.len() {
        groups[i]
    } else {
        None
    }
}

/// A location cut at its last two colons.
pub struct Location {
    pub file: Seq<char>,
    pub line: Seq<char>,
    pub column: Seq<char>,
}

/// Cuts `<file>:<line>:<column>` apart. The last two colons delimit line and column; the file
/// is everything before them and may itself hold colons. A location with fewer than two colons
/// has no such parts.
pub open spec fn split_location(location: Seq<char>) -> Option<Location> {
    let second = last_index_of(location, ':');
    let first = last_index_of(location.take(second), ':');
    if second >= 0 && first >= 0 {
        Some(
            Location {
                file: location.take(first),
                line: location.subrange(first + 1, second),
                column: location.skip(second + 1),
            },
        )
    } else {
        None
    }
}

/// The parts of a location, put together again with their colons, are the location, and neither
/// the line nor the column holds a colon. A location without parts holds at most one colon.
pub proof fn lemma_split_location(location: Seq<char>)
    ensures
        match split_location(location) {
            Some(parts) => {
                &&& location == parts.file + seq![':'] + parts.line + seq![':'] + parts.column
                &&& !parts.line.contains(':')
                &&& !parts.column.contains(':')
            },
            None => forall|i: int, j: int|
                0 <= i < j < location.len() ==> !(location[i] == ':' && location[j] == ':'),
        },
{
    let second = last_index_of(location, ':');
    lemma_last_index_of_bounds(location, ':');
    if second >= 0 {
        let front = location.take(second);
        let first = last_index_of(front, ':');
        lemma_last_index_of_bounds(front, ':');
        if first >= 0 {
            let parts = split_location(location).unwrap();
            assert forall|k: int| 0 <= k < parts.line.len() implies parts.line[k] != ':' by {
                assert(parts.line[k] == front[first + 1 + k]);
            }
            assert forall|k: int| 0 <= k < parts.column.len() implies parts.column[k] != ':' by {
                assert(parts.column[k] == location[second + 1 + k]);
            }
        } else {
            assert forall|i: int, j: int| 0 <= i < j < location.len() implies !(location[i] == ':'
                && location[j] == ':') by {
                if j < second {
                    assert(location[j] == front[j]);
                } else if j == second {
                    assert(location[i] == front[i]);
                }
            }
        }
    }
}

/// The captured name, or the anonymous name where the line names no function: where nothing
/// was captured, and where what was captured is empty.
pub open spec fn name_or_anonymous(name: Option<Seq<char>>) -> Seq<char> {
    match name {
        Some(n) => if n.len() > 0 {
            n
        } else {
            ANONYMOUS@
        },
        None => ANONYMOUS@,
    }
}

/// The captured text, or the empty text where none was captured.
pub open spec fn text_or_empty(text: Option<Seq<char>>) -> Seq<char> {
    match text {
        Some(t) => t,
        None => Seq::empty(),
    }
}

/// The number written in `text`, or 0 where `text` is no unsigned 32-bit number.
pub open spec fn number_or_zero(text: Seq<char>) -> nat {
    match parsed_u32(text) {
        Some(n) => n as nat,
        None => 0,
    }
}

/// The number written in a captured group, or 0 where nothing was captured or the text is no
/// unsigned 32-bit number.
pub open spec fn captured_number(text: Option<Seq<char>>) -> nat {
    match text {
        Some(t) => number_or_zero(t),
        None => 0,
    }
}

/// The frame of a line that the bracketed-call convention matched with these groups: group 1
/// is the name, group 3 the location between the brackets. A match without a location, or with
/// one of fewer than two colons, gives no frame.
pub open spec fn bracketed_frame(groups: Seq<Option<Seq<char>>>) -> Option<FrameView> {
    match group(groups, 3) {
        Some(location) => match split_location(location) {
            Some(parts) => Some(
                FrameView {
                    function_name: name_or_anonymous(group(groups, 1)),
                    file_name: parts.file,
                    line_number: number_or_zero(parts.line),
                    column_number: number_or_zero(parts.column),
                },
            ),
            None => None,
        },
        None => None,
    }
}

/// The frame of a line that an at-sign convention matched with these groups: name, file, line
/// and column are groups 1 to 4. A line with nothing before its at-sign names no function, and
/// its frame has the anonymous name.
pub open spec fn at_sign_frame(groups: Seq<Option<Seq<char>>>) -> FrameView {
    FrameView {
        function_name: name_or_anonymous(group(groups, 1)),
        file_name: text_or_empty(group(groups, 2)),
        line_number: captured_number(group(groups, 3)),
        column_number: captured_number(group(groups, 4)),
    }
}

/// Group `i` of a match.
fn group_at(groups: &Vec<Option<String>>, i: usize) -> (g: Option<&String>)
    ensures
        g.deep_view() == group(groups.deep_view(), i as int),
{
    if i < groups.len() {
        groups[i].as_ref()
    } else {
        None
    }
}

/// The captured name as a string of its own, or the anonymous name.
fn name_of(name: Option<&String>) -> (n: String)
    ensures
        n@ == name_or_anonymous(name.deep_view()),
{
    match name {
        Some(n) => if n.as_str().is_empty() {
            ANONYMOUS.to_owned()
        } else {
            n.clone()
        },
        None => ANONYMOUS.to_owned(),
    }
}

/// Reads a number out of `chars`, with 0 for anything that is none.
pub fn number_or_zero_of(chars: &[char]) -> (n: u32)
    ensures
        n == number_or_zero(chars@),
{
    match parse_u32(chars) {
        Some(n) => n,
        None => 0,
    }
}

/// Reads the number in a captured group, with 0 for anything that is none.
fn number_of(text: Option<&String>) -> (n: u32)
    ensures
        n == captured_number(text.deep_view()),
{
    match text {
        Some(t) => {
            let chars = chars_of(t.as_str());
            number_or_zero_of(chars.as_slice())
        },
        None => 0,
    }
}

/// Makes the frame of a bracketed-call match out of its groups.
pub fn frame_from_bracketed(groups: &Vec<Option<String>>) -> (frame: Option<StackFrame>)
    ensures
        frame.deep_view() == bracketed_frame(groups.deep_view()),
{
    let location = match group_at(groups, 3) {
        Some(l) => chars_of(l.as_str()),
        None => {
            return None;
        },
    };
    let second = match rfind_char(location.as_slice(), ':') {
        Some(i) => i,
        None => {
            return None;
        },
    };
    let first = match rfind_char(slice_subrange(location.as_slice(), 0, second), ':') {
        Some(i) => i,
        None => {
            return None;
        },
    };
    let file = string_of(slice_subrange(location.as_slice(), 0, first));
    let line = number_or_zero_of(slice_subrange(location.as_slice(), first + 1, second));
    let column = number_or_zero_of(slice_subrange(location.as_slice(), second + 1, location.len()));
    let name = name_of(group_at(groups, 1));
    Some(StackFrame::new(name, file, line, column))
}

/// Makes the frame of an at-sign match out of its groups.
pub fn frame_from_at_sign(groups: &Vec<Option<String>>) -> (frame: StackFrame)
    ensures
        frame@ == at_sign_frame(groups.deep_view()),
{
    let name = name_of(group_at(groups, 1));
    let file = match group_at(groups, 2) {
        Some(f) => f.clone(),
        None => String::new(),
    };
    let line = number_of(group_at(groups, 3));
    let column = number_of(group_at(groups, 4));
    StackFrame::new(name, file, line, column)
}

} // verus!
