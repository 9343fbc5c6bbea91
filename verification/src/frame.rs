//! The call-site record that parsing produces.

use crate::digits::decimal_text;
use vstd::prelude::*;

verus! {

/// What a frame says, as plain values.
pub struct FrameView {
    pub function_name: Seq<char>,
    pub file_name: Seq<char>,
    pub line_number: nat,
    pub column_number: nat,
}

impl FrameView {
    /// The frame on one line of text: `<file>:<line>:<column>|<function>`.
    pub open spec fn text(self) -> Seq<char> {
        self.file_name + seq![':'] + decimal_text(self.line_number) + seq![':'] + decimal_text(
            self.column_number,
        ) + seq!['|'] + self.function_name
    }
}

/// One call site of a stack trace: the function, the file, and the position in it. A line or
/// column of 0 stands for "unknown".
#[derive(Debug)]
pub struct StackFrame {
    function_name: String,
    file_name: String,
    line_number: u32,
    column_number: u32,
}

impl View for StackFrame {
    type V = FrameView;

    closed spec fn view(&self) -> FrameView {
        FrameView {
            function_name: self.function_name@,
            file_name: self.file_name@,
            line_number: self.line_number as nat,
            column_number: self.column_number as nat,
        }
    }
}

impl DeepView for StackFrame {
    type V = FrameView;

    open spec fn deep_view(&self) -> FrameView {
        self@
    }
}

impl Clone for StackFrame {
    /// A frame that says the same.
    fn clone(&self) -> (copy: Self)
        ensures
            copy@ == self@,
    {
        StackFrame {
            function_name: self.function_name.clone(),
            file_name: self.file_name.clone(),
            line_number: self.line_number,
            column_number: self.column_number,
        }
    }
}

impl StackFrame {
    /// A frame of these four values.
    pub fn new(
        function_name: String,
        file_name: String,
        line_number: u32,
        column_number: u32,
    ) -> (frame: Self)
        ensures
            frame@ == (FrameView {
                function_name: function_name@,
                file_name: file_name@,
                line_number: line_number as nat,
                column_number: column_number as nat,
            }),
    {
        StackFrame { function_name, file_name, line_number, column_number }
    }

    /// The name of the function, or the anonymous name.
    pub fn function_name(&self) -> (name: String)
        ensures
            name@ == self@.function_name,
    {
        self.function_name.clone()
    }

    /// The path of the file; it may be empty.
    pub fn file_name(&self) -> (name: String)
        ensures
            name@ == self@.file_name,
    {
        self.file_name.clone()
    }

    /// The line in the file; 0 where it is not known.
    pub fn line_number(&self) -> (line: u32)
        ensures
            line == self@.line_number,
    {
        self.line_number
    }

    /// The column in the line; 0 where it is not known.
    pub fn column_number(&self) -> (column: u32)
        ensures
            column == self@.column_number,
    {
        self.column_number
    }

    /// Both positions of a frame fit in 32 bits.
    pub proof fn lemma_positions_bounded(&self)
        ensures
            self@.line_number <= u32::MAX,
            self@.column_number <= u32::MAX,
    {
    }
}

} // verus!
