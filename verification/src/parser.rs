//! The stack-trace parser: every line of a trace is held against the three conventions in
//! turn, and the frames of the lines that match come out in the order of the lines.

use crate::frame::{FrameView, StackFrame};
use crate::frameworks::{framework_label, FrameworkTable};
use crate::rules::{
    at_sign_frame, bracketed_frame, captures, compile, frame_from_at_sign, frame_from_bracketed,
    regex_captures, regex_new, AT_SIGN_BARE, AT_SIGN_PATH, BRACKETED_CALL,
};
use crate::text::{chars_of, split, split_on, string_of};
use crate::utils::format_stack_frame;
use regex::Regex;
use vstd::prelude::*;
use vstd::string::StringExecFns;

verus! {

/// All three conventions compile.
pub open spec fn conventions_compile() -> bool {
    &&& regex_new(BRACKETED_CALL@) is Some
    &&& regex_new(AT_SIGN_PATH@) is Some
    &&& regex_new(AT_SIGN_BARE@) is Some
}

/// What the convention written as `pattern` captures in `line`; `None` where it matches nowhere
/// in the line.
pub open spec fn rule_captures(pattern: Seq<char>, line: Seq<char>) -> Option<
    Seq<Option<Seq<char>>>,
> {
    match regex_new(pattern) {
        Some(re) => regex_captures(re, line),
        None => None,
    }
}

/// The frame of one line. The conventions are tried in a fixed order, bracketed call first, and
/// the first that matches decides: a line that the bracketed-call convention matches without
/// yielding a frame is not held against the others.
pub open spec fn line_frame(line: Seq<char>) -> Option<FrameView> {
    match rule_captures(BRACKETED_CALL@, line) {
        Some(groups) => bracketed_frame(groups),
        None => match rule_captures(AT_SIGN_PATH@, line) {
            Some(groups) => Some(at_sign_frame(groups)),
            None => match rule_captures(AT_SIGN_BARE@, line) {
                Some(groups) => Some(at_sign_frame(groups)),
                None => None,
            },
        },
    }
}

/// The frames of a sequence of lines: one for each line that has a frame, in the order of the
/// lines.
pub open spec fn frames_of_lines(lines: Seq<Seq<char>>) -> Seq<FrameView> {
    lines.filter_map(|line: Seq<char>| line_frame(line))
}

/// The frames of a whole trace. An empty trace has none; any other is cut into lines at every
/// line feed.
pub open spec fn frames_of(trace: Seq<char>) -> Seq<FrameView> {
    if trace.len() == 0 {
        Seq::empty()
    } else {
        frames_of_lines(split(trace, '\n'))
    }
}

/// The frames written out, one to a line and each line ended by a line feed.
pub open spec fn rendered(frames: Seq<FrameView>) -> Seq<char>
    decreases frames.len(),
{
    if frames.len() == 0 {
        Seq::empty()
    } else {
        rendered(frames.drop_last()) + frames.last().text() + seq!['\n']
    }
}

/// A parser for stack traces. It holds the three conventions in compiled form and the table
/// of framework labels, so one parser serves any number of traces.
pub struct ErrorParser {
    bracketed_call: Regex,
    at_sign_path: Regex,
    at_sign_bare: Regex,
    frameworks: FrameworkTable,
}

impl ErrorParser {
    /// The parser holds the three conventions, each as `Regex::new` compiles it. Every parser
    /// does.
    #[verifier::type_invariant]
    pub closed spec fn holds_the_conventions(self) -> bool {
        &&& regex_new(BRACKETED_CALL@) == Some(self.bracketed_call)
        &&& regex_new(AT_SIGN_PATH@) == Some(self.at_sign_path)
        &&& regex_new(AT_SIGN_BARE@) == Some(self.at_sign_bare)
    }

    /// Compiles the three conventions. Where one of them does not compile there is no
    /// parser: `try_new` tells.
    pub fn new() -> (parser: Self)
        requires
            conventions_compile(),
        ensures
            parser.holds_the_conventions(),
    {
        ErrorParser {
            bracketed_call: compile(BRACKETED_CALL).unwrap(),
            at_sign_path: compile(AT_SIGN_PATH).unwrap(),
            at_sign_bare: compile(AT_SIGN_BARE).unwrap(),
            frameworks: FrameworkTable::new(),
        }
    }

    /// Whether the three conventions compile.
    pub fn conventions_ready() -> (ready: bool)
        ensures
            ready == conventions_compile(),
    {
        compile(BRACKETED_CALL).is_some() && compile(AT_SIGN_PATH).is_some() && compile(
            AT_SIGN_BARE,
        ).is_some()
    }

    /// Compiles the three conventions, if they compile.
    pub fn try_new() -> (parser: Option<Self>)
        ensures
            parser.is_some() == conventions_compile(),
            parser matches Some(p) ==> p.holds_the_conventions(),
    {
        if Self::conventions_ready() {
            Some(Self::new())
        } else {
            None
        }
    }

    /// Holds one line against the conventions and gives its frame, if it has one.
    pub fn match_line(&self, line: &str) -> (frame: Option<StackFrame>)
        ensures
            frame.deep_view() == line_frame(line@),
    {
        proof {
            use_type_invariant(self);
        }
        if let Some(groups) = captures(&self.bracketed_call, line) {
            return frame_from_bracketed(&groups);
        }
        if let Some(groups) = captures(&self.at_sign_path, line) {
            return Some(frame_from_at_sign(&groups));
        }
        if let Some(groups) = captures(&self.at_sign_bare, line) {
            return Some(frame_from_at_sign(&groups));
        }
        None
    }

    /// Parses a trace into its frames. Every text is a trace: lines that match no convention
    /// are passed over, and a number that cannot be read is 0.
    pub fn parse_frames(&self, stack: &str) -> (frames: Vec<StackFrame>)
        ensures
            frames.deep_view() == frames_of(stack@),
            forall|k: int|
                0 <= k < frames.len() ==> (#[trigger] frames[k])@.line_number <= u32::MAX
                    && frames[k]@.column_number <= u32::MAX,
    {
        let mut frames: Vec<StackFrame> = Vec::new();
        if stack.is_empty() {
            return frames;
        }
        let chars = chars_of(stack);
        let lines = split_on(chars.as_slice(), '\n');
        let ghost all = lines.deep_view();
        for i in 0..lines.len()
            invariant
                all == lines.deep_view(),
                frames.deep_view() == frames_of_lines(all.take(i as int)),
        {
            let line = string_of(lines[i].as_slice());
            proof {
                assert(all[i as int] == line@);
                all.lemma_filter_map_take_succ(|l: Seq<char>| line_frame(l), i as int);
            }
            match self.match_line(line.as_str()) {
                Some(frame) => frames.push(frame),
                None => {},
            }
        }
        assert(all.take(lines.len() as int) == all);
        proof {
            assert forall|k: int| 0 <= k < frames.len() implies (#[trigger] frames[k])@.line_number
                <= u32::MAX && frames[k]@.column_number <= u32::MAX by {
                frames[k].lemma_positions_bounded();
            }
        }
        frames
    }

    /// The framework that the file of `frame` belongs to, if the table of framework labels
    /// tells. Parsing does not ask; this is for annotating frames afterwards.
    pub fn framework_of(&self, frame: &StackFrame) -> (label: Option<String>)
        ensures
            label.deep_view() == framework_label(frame@.file_name),
    {
        let file = frame.file_name();
        self.frameworks.label_for(file.as_str())
    }

    /// Parses a trace and writes its frames out as text, one to a line.
    pub fn parse(&self, stack: &str) -> (text: String)
        ensures
            text@ == rendered(frames_of(stack@)),
    {
        let frames = self.parse_frames(stack);
        let ghost views = frames.deep_view();
        let mut text = String::new();
        for i in 0..frames.len()
            invariant
                views == frames.deep_view(),
                text@ == rendered(views.take(i as int)),
        {
            let frame = &frames[i];
            let name = frame.function_name();
            let file = frame.file_name();
            let line = format_stack_frame(
                name.as_str(),
                file.as_str(),
                frame.line_number(),
                frame.column_number(),
            );
            proof {
                reveal_strlit("\n");
                assert(views.take(i + 1).drop_last() == views.take(i as int));
            }
            text.append(line.as_str());
            text.append("\n");
        }
        assert(views.take(frames.len() as int) == views);
        text
    }

    /// Parses a trace into its frames, as `parse_frames` does: the fast entry knows the same
    /// conventions and gives the same frames.
    pub fn parse_simd(&self, stack: &str) -> (frames: Vec<StackFrame>)
        ensures
            frames.deep_view() == frames_of(stack@),
            forall|k: int|
                0 <= k < frames.len() ==> (#[trigger] frames[k])@.line_number <= u32::MAX
                    && frames[k]@.column_number <= u32::MAX,
    {
        self.parse_frames(stack)
    }
}

/// Frames come out line by line: the frames of two runs of lines, one after the other, are the
/// frames of the first run followed by the frames of the second.
pub proof fn lemma_frames_of_lines_concat(first: Seq<Seq<char>>, second: Seq<Seq<char>>)
    ensures
        frames_of_lines(first + second) == frames_of_lines(first) + frames_of_lines(second),
    decreases second.len(),
{
    if second.len() > 0 {
        assert((first + second).drop_last() == first + second.drop_last());
        lemma_frames_of_lines_concat(first, second.drop_last());
    }
}

/// No frame is made up: every frame of a run of lines is the frame of one of the lines.
pub proof fn lemma_frames_come_from_lines(lines: Seq<Seq<char>>, k: int)
    requires
        0 <= k < frames_of_lines(lines).len(),
    ensures
        exists|i: int|
            0 <= i < lines.len() && line_frame(#[trigger] lines[i]) == Some(
                frames_of_lines(lines)[k],
            ),
    decreases lines.len(),
{
    if lines.len() > 0 {
        let rest = lines.drop_last();
        if k < frames_of_lines(rest).len() {
            lemma_frames_come_from_lines(rest, k);
            let i = choose|i: int|
                0 <= i < rest.len() && line_frame(#[trigger] rest[i]) == Some(
                    frames_of_lines(rest)[k],
                );
            assert(lines[i] == rest[i]);
        } else {
            assert(line_frame(lines.last()) == Some(frames_of_lines(lines)[k]));
        }
    }
}

/// Frames keep the order of their lines: where two lines both have a frame, the frame of the
/// earlier line stands before the frame of the later line among the frames of all the lines.
/// The place of a line's frame is the number of frames that the lines before it have.
pub proof fn lemma_frames_keep_line_order(lines: Seq<Seq<char>>, i: int, j: int)
    requires
        0 <= i < j < lines.len(),
        line_frame(lines[i]) is Some,
        line_frame(lines[j]) is Some,
    ensures
        ({
            let frames = frames_of_lines(lines);
            let p = frames_of_lines(lines.take(i)).len() as int;
            let q = frames_of_lines(lines.take(j)).len() as int;
            &&& 0 <= p < q < frames.len()
            &&& Some(frames[p]) == line_frame(lines[i])
            &&& Some(frames[q]) == line_frame(lines[j])
        }),
{
    let f = |line: Seq<char>| line_frame(line);
    lines.take(j).lemma_filter_map_take_succ(f, i);
    assert(lines.take(j).take(i + 1) == lines.take(i + 1));
    assert(lines.take(j).take(i) == lines.take(i));
    lemma_frames_of_lines_concat(lines.take(i + 1), lines.subrange(i + 1, j));
    assert(lines.take(i + 1) + lines.subrange(i + 1, j) == lines.take(j));
    lines.lemma_filter_map_take_succ(f, j);
    lemma_frames_of_lines_concat(lines.take(j + 1), lines.skip(j + 1));
    assert(lines.take(j + 1) + lines.skip(j + 1) == lines);
}

} // verus!
