//! The ways in which a compilation fails.

use crate::text::{decimal, push_decimal, push_text};
use crate::token::{SpecKind, TokenKind};
use vstd::prelude::*;

verus! {

/// Why a source text was not compiled. Every failure ends the compilation.
#[derive(Debug, PartialEq)]
pub enum CompileError {
    /// A lexical error: the source has no line at all.
    Empty,
    /// A lexical error: the character at this row and column starts no
    /// token.
    InvalidCharacter { row: u32, col: u32 },
    /// A lexical error: the source names more variables than frame offsets
    /// below 2^31 can tell apart.
    TooManyVariables,
    /// A syntax error: a token of kind `expect` was required behind the
    /// place `row`/`col`, where one of kind `result` stands.
    Unexpected { row: u32, col: u32, expect: TokenKind, result: TokenKind },
    /// A syntax error: a token of kind `expect` was required behind the
    /// place `row`/`col`, where the source ends.
    Expected { row: u32, col: u32, expect: TokenKind },
    /// A syntax error that the generator finds: the left-hand side of an
    /// assignment is not a variable.
    InvalidAssignmentTarget,
    /// An error of the generator: the assembly text could not be put
    /// together, because the tree is no statement, or because 64 bits do
    /// not number its labels. No source that is compiled as a whole comes
    /// to this.
    FmtError,
}

/// The mathematical value of a [`CompileError`].
pub enum SpecError {
    Empty,
    InvalidCharacter { row: u32, col: u32 },
    TooManyVariables,
    Unexpected { row: u32, col: u32, expect: SpecKind, result: SpecKind },
    Expected { row: u32, col: u32, expect: SpecKind },
    InvalidAssignmentTarget,
    FmtError,
}

/// A place in a message: the row, a colon, the column.
pub open spec fn place(row: u32, col: u32) -> Seq<char> {
    decimal(row as nat) + ":"@ + decimal(col as nat)
}

impl SpecError {
    /// The one-line message of the error. A token that is missing is
    /// named behind its place: `0:4 expect Operation: )` where the source
    /// ends, and `0:4 expect: Operation: ), find: Semicolon: ;` where
    /// another token stands.
    pub open spec fn message(self) -> Seq<char> {
        match self {
            SpecError::Empty => "Empty"@,
            SpecError::InvalidCharacter { row, col } => place(row, col) + " invalid character"@,
            SpecError::TooManyVariables => "too many variables"@,
            SpecError::Unexpected { row, col, expect, result } => place(row, col) + " expect: "@
                + expect.name() + ", find: "@ + result.name(),
            SpecError::Expected { row, col, expect } => place(row, col) + " expect "@
                + expect.name(),
            SpecError::InvalidAssignmentTarget => "parse error None"@,
            SpecError::FmtError => "an error occurred when formatting an argument"@,
        }
    }
}

impl View for CompileError {
    type V = SpecError;

    open spec fn view(&self) -> SpecError {
        match self {
            CompileError::Empty => SpecError::Empty,
            CompileError::InvalidCharacter { row, col } => SpecError::InvalidCharacter {
                row: *row,
                col: *col,
            },
            CompileError::TooManyVariables => SpecError::TooManyVariables,
            CompileError::Unexpected { row, col, expect, result } => SpecError::Unexpected {
                row: *row,
                col: *col,
                expect: expect@,
                result: result@,
            },
            CompileError::Expected { row, col, expect } => SpecError::Expected {
                row: *row,
                col: *col,
                expect: expect@,
            },
            CompileError::InvalidAssignmentTarget => SpecError::InvalidAssignmentTarget,
            CompileError::FmtError => SpecError::FmtError,
        }
    }
}

impl DeepView for CompileError {
    type V = SpecError;

    open spec fn deep_view(&self) -> SpecError {
        self@
    }
}

/// Appends the place `row`/`col` to `output`.
fn push_place(output: &mut String, row: u32, col: u32)
    ensures
        final(output)@ == old(output)@ + place(row, col),
{
    push_decimal(output, row as u64);
    push_text(output, ":");
    push_decimal(output, col as u64);
    assert(output@ =~= old(output)@ + place(row, col));
}

impl CompileError {
    /// The one-line message of the error, as a caller shows it.
    pub fn to_string(&self) -> (message: String)
        ensures
            message@ == self@.message(),
    {
        let mut message = String::new();
        match self {
            CompileError::Empty => {
                push_text(&mut message, "Empty");
            },
            CompileError::InvalidCharacter { row, col } => {
                push_place(&mut message, *row, *col);
                push_text(&mut message, " invalid character");
            },
            CompileError::TooManyVariables => {
                push_text(&mut message, "too many variables");
            },
            CompileError::Unexpected { row, col, expect, result } => {
                push_place(&mut message, *row, *col);
                push_text(&mut message, " expect: ");
                let expect_name = expect.to_string();
                push_text(&mut message, expect_name.as_str());
                push_text(&mut message, ", find: ");
                let result_name = result.to_string();
                push_text(&mut message, result_name.as_str());
            },
            CompileError::Expected { row, col, expect } => {
                push_place(&mut message, *row, *col);
                push_text(&mut message, " expect ");
                let expect_name = expect.to_string();
                push_text(&mut message, expect_name.as_str());
            },
            CompileError::InvalidAssignmentTarget => {
                push_text(&mut message, "parse error None");
            },
            CompileError::FmtError => {
                push_text(&mut message, "an error occurred when formatting an argument");
            },
        }
        assert(message@ =~= self@.message());
        message
    }
}

} // verus!
