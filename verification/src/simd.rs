//! The fast paths: numbers and line/column candidates straight out of the bytes of a trace,
//! the frames of a trace, and a short form of a trace for a glance.

use crate::frame::StackFrame;
use crate::parser::{conventions_compile, frames_of, ErrorParser};
use crate::scanner::{extract_numbers, number_tokens, ScanStrategy};
use crate::text::{
    chars_of, exactly, find_sub, first_occurrence, last_index_of, lines, lines_of, occurs_in,
    rfind_char, split, split_on, string_of, strip_end, strip_start, trim_end_matches,
    trim_start_matches,
};
use vstd::prelude::*;
use vstd::slice::{slice_subrange, slice_to_vec};
use vstd::string::StringSliceAdditionalSpecFns;

verus! {

/// The marker before the call of a line.
pub const AT_MARK: &'static str = " at ";

/// Every number paired with the one that follows it.
pub open spec fn adjacent_pairs(numbers: Seq<u32>) -> Seq<(u32, u32)> {
    Seq::new(
        if numbers.len() > 0 {
            (numbers.len() - 1) as nat
        } else {
            0
        },
        |i: int| (numbers[i], numbers[i + 1]),
    )
}

/// Pairs written out one number after the other.
pub open spec fn flattened(pairs: Seq<(u32, u32)>) -> Seq<u32> {
    Seq::new(
        2 * pairs.len(),
        |k: int|
            if k % 2 == 0 {
                pairs[k / 2].0
            } else {
                pairs[k / 2].1
            },
    )
}

/// What a line holds behind its marker: what stands between its first ` at ` and the next one,
/// or the end of the line. A line without ` at ` holds nothing there.
pub open spec fn marked_text(line: Seq<char>) -> Option<Seq<char>> {
    if occurs_in(line, AT_MARK@) {
        let rest = line.skip(first_occurrence(line, AT_MARK@) + AT_MARK@.len());
        Some(rest.take(first_occurrence(rest, AT_MARK@)))
    } else {
        None
    }
}

/// The short form of what a line holds behind its marker: the name of the file, a colon, and,
/// where the text holds a colon, what stands behind its first colon up to the next, followed by
/// `|`. The file is what stands before the first colon of the text taken without the brackets
/// at its ends; its name is what follows the last `/` in it.
pub open spec fn marked_summary(text: Seq<char>) -> Seq<char> {
    let path = split(strip_end(strip_start(text, exactly('(')), exactly(')')), ':')[0];
    let name = path.skip(last_index_of(path, '/') + 1);
    let pieces = split(text, ':');
    if pieces.len() > 1 {
        name + seq![':'] + pieces[1] + seq!['|']
    } else {
        name + seq![':']
    }
}

/// The short form of one line; empty for a line without marker.
pub open spec fn line_summary(line: Seq<char>) -> Seq<char> {
    match marked_text(line) {
        Some(text) => marked_summary(text),
        None => Seq::empty(),
    }
}

/// The short forms of a run of lines, one after the other.
pub open spec fn summary_of_lines(lines: Seq<Seq<char>>) -> Seq<char>
    decreases lines.len(),
{
    if lines.len() == 0 {
        Seq::empty()
    } else {
        summary_of_lines(lines.drop_last()) + line_summary(lines.last())
    }
}

/// What `line` holds behind its marker.
fn marked_text_of(line: &[char]) -> (text: Option<&[char]>)
    ensures
        match text {
            Some(t) => marked_text(line@) == Some(t@),
            None => marked_text(line@) is None,
        },
{
    let mark = chars_of(AT_MARK);
    let n = line.len();
    proof {
        reveal_strlit(" at ");
    }
    match find_sub(line, mark.as_slice()) {
        Some(at) => {
            let rest = slice_subrange(line, at + 4, n);
            let end = match find_sub(rest, mark.as_slice()) {
                Some(next) => next,
                None => rest.len(),
            };
            Some(slice_subrange(rest, 0, end))
        },
        None => None,
    }
}

/// Appends the short form of `text` to `out`.
fn push_marked_summary(text: &[char], out: &mut Vec<char>)
    ensures
        final(out)@ == old(out)@ + marked_summary(text@),
{
    let location = trim_end_matches(trim_start_matches(text, '('), ')');
    let parts = split_on(location, ':');
    let pieces = split_on(text, ':');
    assert(parts.deep_view()[0] == parts[0]@);
    let path = parts[0].as_slice();
    let end = path.len();
    let from = match rfind_char(path, '/') {
        Some(slash) => slash + 1,
        None => 0,
    };
    let mut name = slice_to_vec(slice_subrange(path, from, end));
    out.append(&mut name);
    out.push(':');
    if pieces.len() > 1 {
        let mut second = slice_to_vec(pieces[1].as_slice());
        out.append(&mut second);
        out.push('|');
    }
}

/// The fast paths of the engine in one value: a scanner for the numbers of a trace, made with
/// the strategy by which it scans and finding the same numbers with either, and a parser for
/// its frames.
pub struct SimdParser {
    strategy: ScanStrategy,
    frames: ErrorParser,
}

impl View for SimdParser {
    type V = ScanStrategy;

    /// What tells one of these from another: its strategy. The parser that it holds is the
    /// same in every one.
    closed spec fn view(&self) -> ScanStrategy {
        self.strategy
    }
}

impl SimdParser {
    /// A scanner that scans in batches. Where a convention does not compile there is none:
    /// `try_new` tells.
    pub fn new() -> (parser: Self)
        requires
            conventions_compile(),
        ensures
            parser@ == ScanStrategy::Batch,
    {
        Self::with_strategy(ScanStrategy::Batch)
    }

    /// A scanner that scans in batches, if the conventions compile.
    pub fn try_new() -> (parser: Option<Self>)
        ensures
            parser.is_some() == conventions_compile(),
            parser matches Some(p) ==> p@ == ScanStrategy::Batch,
    {
        if ErrorParser::conventions_ready() {
            Some(Self::new())
        } else {
            None
        }
    }

    /// A scanner that scans by `strategy`. Where a convention does not compile there is none:
    /// `try_with_strategy` tells.
    pub fn with_strategy(strategy: ScanStrategy) -> (parser: Self)
        requires
            conventions_compile(),
        ensures
            parser@ == strategy,
    {
        SimdParser { strategy, frames: ErrorParser::new() }
    }

    /// A scanner that scans by `strategy`, if the conventions compile.
    pub fn try_with_strategy(strategy: ScanStrategy) -> (parser: Option<Self>)
        ensures
            parser.is_some() == conventions_compile(),
            parser matches Some(p) ==> p@ == strategy,
    {
        if ErrorParser::conventions_ready() {
            Some(Self::with_strategy(strategy))
        } else {
            None
        }
    }

    /// The strategy by which this scanner scans.
    pub fn strategy(&self) -> (strategy: ScanStrategy)
        ensures
            strategy == self@,
    {
        self.strategy
    }

    /// The numbers in `input`: one for every maximal run of digits among its bytes, from left
    /// to right. A run whose number does not fit in 32 bits is passed over.
    pub fn parse_numbers(&self, input: &str) -> (numbers: Vec<u32>)
        ensures
            numbers@ == number_tokens(input.spec_bytes()),
    {
        extract_numbers(self.strategy, input.as_bytes())
    }

    /// The candidates for line and column in `input`: every number in it paired with the one
    /// that follows it.
    pub fn extract_line_column_pairs(&self, input: &str) -> (pairs: Vec<(u32, u32)>)
        ensures
            pairs@ == adjacent_pairs(number_tokens(input.spec_bytes())),
    {
        let numbers = self.parse_numbers(input);
        let mut pairs: Vec<(u32, u32)> = Vec::new();
        if numbers.len() < 2 {
            return pairs;
        }
        for i in 0..numbers.len() - 1
            invariant
                numbers.len() >= 2,
                pairs@ == adjacent_pairs(numbers@).take(i as int),
        {
            pairs.push((numbers[i], numbers[i + 1]));
        }
        pairs
    }

    /// The candidates for line and column in `input`, written out one number after the other:
    /// each pair's line, then its column.
    pub fn parse_line_column(&self, input: &str) -> (numbers: Vec<u32>)
        ensures
            numbers@ == flattened(adjacent_pairs(number_tokens(input.spec_bytes()))),
    {
        let pairs = self.extract_line_column_pairs(input);
        let mut numbers: Vec<u32> = Vec::new();
        for i in 0..pairs.len()
            invariant
                numbers@ == flattened(pairs@.take(i as int)),
        {
            numbers.push(pairs[i].0);
            numbers.push(pairs[i].1);
        }
        numbers
    }

    /// Parses a trace into its frames. The frames are those of the three conventions, as
    /// `ErrorParser::parse_frames` gives them: a line that matches none gives no frame, and
    /// the last two colons of a location delimit line and column.
    pub fn parse_stack_simd(&self, stack: &str) -> (frames: Vec<StackFrame>)
        ensures
            frames.deep_view() == frames_of(stack@),
            forall|k: int|
                0 <= k < frames.len() ==> (#[trigger] frames[k])@.line_number <= u32::MAX
                    && frames[k]@.column_number <= u32::MAX,
    {
        self.frames.parse_frames(stack)
    }

    /// The short form of a trace: for every line that holds ` at `, the name of the file and
    /// what stands between the first two colons behind the marker, as `<name>:<line>|`.
    pub fn simd_parse_stack(&self, stack: &str) -> (summary: String)
        ensures
            summary@ == summary_of_lines(lines(stack@)),
    {
        let chars = chars_of(stack);
        let all_lines = lines_of(chars.as_slice());
        let ghost all = all_lines.deep_view();
        let mut out: Vec<char> = Vec::new();
        for i in 0..all_lines.len()
            invariant
                all == all_lines.deep_view(),
                out@ == summary_of_lines(all.take(i as int)),
        {
            proof {
                assert(all[i as int] == all_lines[i as int]@);
                assert(all.take(i + 1).drop_last() == all.take(i as int));
            }
            match marked_text_of(all_lines[i].as_slice()) {
                Some(text) => push_marked_summary(text, &mut out),
                None => {},
            }
        }
        assert(all.take(all_lines.len() as int) == all);
        string_of(out.as_slice())
    }
}

} // verus!
