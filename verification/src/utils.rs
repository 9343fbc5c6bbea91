//! Helpers on single lines of a trace: writing a frame as text, and reading a position or a file
//! name out of a line without the conventions.

use crate::digits::{parse_u32, parsed_u32, push_decimal};
use crate::frame::FrameView;
use crate::rules::split_location;
use crate::text::{
    chars_of, find_char, find_sub, first_index_of, first_occurrence, last_index_of, occurs_in,
    rfind_char, string_of,
};
use vstd::prelude::*;
use vstd::slice::slice_subrange;

verus! {

/// The marker before a location that stands without brackets.
pub const AT_WORD: &'static str = "at ";

/// Line and column at the end of `s`: the texts around its last colon, the first of them
/// reaching back to the colon before or to the start of `s`. Both must be numbers.
pub open spec fn line_column_of(s: Seq<char>) -> Option<(u32, u32)> {
    let second = last_index_of(s, ':');
    let first = last_index_of(s.take(second), ':');
    if second < 0 {
        None
    } else {
        match (parsed_u32(s.subrange(first + 1, second)), parsed_u32(s.skip(second + 1))) {
            (Some(line), Some(column)) => Some((line, column)),
            _ => None,
        }
    }
}

/// The file of a location: what stands before its last two colons.
pub open spec fn file_of_location(location: Seq<char>) -> Option<Seq<char>> {
    match split_location(location) {
        Some(parts) => Some(parts.file),
        None => None,
    }
}

/// What stands between the first `(` of `line` and the first `)` after it.
pub open spec fn bracket_content(line: Seq<char>) -> Option<Seq<char>> {
    let open = first_index_of(line, '(');
    let close = first_index_of(line.skip(open), ')');
    if open < line.len() && close < line.len() - open {
        Some(line.subrange(open + 1, open + close))
    } else {
        None
    }
}

/// What follows the first `at ` of `line`.
pub open spec fn after_at_word(line: Seq<char>) -> Option<Seq<char>> {
    if occurs_in(line, AT_WORD@) {
        Some(line.skip(first_occurrence(line, AT_WORD@) + 3))
    } else {
        None
    }
}

/// What follows the first `@` of `line`.
pub open spec fn after_at_sign(line: Seq<char>) -> Option<Seq<char>> {
    let at = first_index_of(line, '@');
    if at < line.len() {
        Some(line.skip(at + 1))
    } else {
        None
    }
}

/// The file of the location that `candidate` holds, if it holds one.
pub open spec fn file_in(candidate: Option<Seq<char>>) -> Option<Seq<char>> {
    match candidate {
        Some(location) => file_of_location(location),
        None => None,
    }
}

/// The file that a line names. The location is looked for between brackets, then after `at `,
/// then after `@`; the first of these places that holds a location with two colons decides.
pub open spec fn file_name_of(line: Seq<char>) -> Option<Seq<char>> {
    if file_in(bracket_content(line)) is Some {
        file_in(bracket_content(line))
    } else if file_in(after_at_word(line)) is Some {
        file_in(after_at_word(line))
    } else {
        file_in(after_at_sign(line))
    }
}

/// Reads line and column off the end of `s`, as in `<file>:<line>:<column>`.
pub fn extract_line_column(s: &str) -> (position: Option<(u32, u32)>)
    ensures
        position == line_column_of(s@),
{
    let chars = chars_of(s);
    let second = match rfind_char(chars.as_slice(), ':') {
        Some(i) => i,
        None => {
            return None;
        },
    };
    let start = match rfind_char(slice_subrange(chars.as_slice(), 0, second), ':') {
        Some(i) => i + 1,
        None => 0,
    };
    let line = match parse_u32(slice_subrange(chars.as_slice(), start, second)) {
        Some(n) => n,
        None => {
            return None;
        },
    };
    match parse_u32(slice_subrange(chars.as_slice(), second + 1, chars.len())) {
        Some(column) => Some((line, column)),
        None => None,
    }
}

/// Whether `s` ends in a line and a column.
pub fn has_line_column(s: &str) -> (b: bool)
    ensures
        b == line_column_of(s@).is_some(),
{
    extract_line_column(s).is_some()
}

/// Writes a frame on one line: `<file>:<line>:<column>|<function>`.
pub fn format_stack_frame(func: &str, file: &str, line: u32, col: u32) -> (text: String)
    ensures
        text@ == (FrameView {
            function_name: func@,
            file_name: file@,
            line_number: line as nat,
            column_number: col as nat,
        }).text(),
{
    let mut out = chars_of(file);
    out.push(':');
    push_decimal(line, &mut out);
    out.push(':');
    push_decimal(col, &mut out);
    out.push('|');
    let mut name = chars_of(func);
    out.append(&mut name);
    string_of(out.as_slice())
}

fn file_of(location: &[char]) -> (file: Option<String>)
    ensures
        file.deep_view() == file_of_location(location@),
{
    let second = match rfind_char(location, ':') {
        Some(i) => i,
        None => {
            return None;
        },
    };
    match rfind_char(slice_subrange(location, 0, second), ':') {
        Some(first) => Some(string_of(slice_subrange(location, 0, first))),
        None => None,
    }
}

fn between_brackets(line: &[char]) -> (content: Option<&[char]>)
    ensures
        match content {
            Some(c) => bracket_content(line@) == Some(c@),
            None => bracket_content(line@) is None,
        },
{
    let open = match find_char(line, '(') {
        Some(i) => i,
        None => {
            return None;
        },
    };
    match find_char(slice_subrange(line, open, line.len()), ')') {
        Some(close) => {
            assert(close > 0) by {
                assert(line@.skip(open as int)[0] == '(');
            }
            Some(slice_subrange(line, open + 1, open + close))
        },
        None => None,
    }
}

/// Reads the file name out of a line of a trace, whichever way the line is written.
pub fn extract_file_name(stack_line: &str) -> (file: Option<String>)
    ensures
        file.deep_view() == file_name_of(stack_line@),
{
    let line = chars_of(stack_line);
    if let Some(content) = between_brackets(line.as_slice()) {
        let file = file_of(content);
        if file.is_some() {
            return file;
        }
    }
    let at_word = chars_of(AT_WORD);
    proof {
        reveal_strlit("at ");
    }
    if let Some(start) = find_sub(line.as_slice(), at_word.as_slice()) {
        let file = file_of(slice_subrange(line.as_slice(), start + 3, line.len()));
        if file.is_some() {
            return file;
        }
    }
    if let Some(at) = find_char(line.as_slice(), '@') {
        return file_of(slice_subrange(line.as_slice(), at + 1, line.len()));
    }
    None
}

} // verus!
