//! The token cursor: a token sequence read with one token of lookahead.

use crate::result::{CompileError, SpecError};
use crate::token::{SpecKind, SpecToken, Token, TokenKind};
use vstd::prelude::*;

verus! {

/// What a step of reading tokens comes to: a value and the place behind it,
/// or an error and the place at which it was met.
pub enum Parsed<T> {
    Done { value: T, pos: nat },
    Fail { error: SpecError, pos: nat },
}

/// The place that an error at `pos` reports: row and column just behind the
/// last token that was consumed. Before any was, the first token stands for
/// it; without tokens it is the start of the source.
pub open spec fn stop_place(tokens: Seq<SpecToken>, pos: nat) -> (u32, u32) {
    if 0 < pos <= tokens.len() {
        (tokens[pos - 1].row, tokens[pos - 1].end_col())
    } else if tokens.len() > 0 {
        (tokens[0].row, tokens[0].end_col())
    } else {
        (0, 0)
    }
}

/// The error of finding no token of kind `want` at `pos`.
#[verifier::opaque]
pub open spec fn mismatch(tokens: Seq<SpecToken>, pos: nat, want: SpecKind) -> SpecError {
    let (row, col) = stop_place(tokens, pos);
    if pos < tokens.len() {
        SpecError::Unexpected { row, col, expect: want, result: tokens[pos as int].kind }
    } else {
        SpecError::Expected { row, col, expect: want }
    }
}

/// Whether the token at `pos` is of kind `want`, payload aside.
pub open spec fn next_is(tokens: Seq<SpecToken>, pos: nat, want: SpecKind) -> bool {
    pos < tokens.len() && tokens[pos as int].kind.same_kind(want)
}

/// Requires a token of kind `want` at `pos`: its kind and the place behind
/// it, or the mismatch with the place unchanged.
pub open spec fn expect_at(tokens: Seq<SpecToken>, pos: nat, want: SpecKind) -> Parsed<SpecKind> {
    if next_is(tokens, pos, want) {
        Parsed::Done { value: tokens[pos as int].kind, pos: pos + 1 }
    } else {
        Parsed::Fail { error: mismatch(tokens, pos, want), pos }
    }
}

/// The kind that stands for any number in a message.
pub open spec fn any_number() -> SpecKind {
    SpecKind::Num(0)
}

/// The kind that stands for any variable in a message.
pub open spec fn any_variable() -> SpecKind {
    SpecKind::LocalVar { symbol: Seq::empty(), offset: 0 }
}

/// Whether `result`, with the cursor left at `pos`, is what `outcome` says.
pub open spec fn agrees<T: DeepView>(
    result: Result<T, CompileError>,
    pos: nat,
    outcome: Parsed<T::V>,
) -> bool {
    match outcome {
        Parsed::Done { value, pos: behind } => result is Ok && result->Ok_0.deep_view() == value
            && pos == behind,
        Parsed::Fail { error, pos: at } => result is Err && result->Err_0@ == error && pos == at,
    }
}

/// A token sequence and a place in it. Tokens before the place have been
/// consumed; the one at the place is the lookahead.
#[derive(Debug)]
pub struct TokenStream {
    tokens: Vec<Token>,
    pos: usize,
}

impl TokenStream {
    #[verifier::type_invariant]
    spec fn in_range(self) -> bool {
        self.pos <= self.tokens.len()
    }

    /// All tokens of the stream, consumed or not.
    pub closed spec fn tokens(self) -> Seq<SpecToken> {
        self.tokens.deep_view()
    }

    /// How many tokens have been consumed.
    pub closed spec fn pos(self) -> nat {
        if self.pos <= self.tokens.len() {
            self.pos as nat
        } else {
            self.tokens.len() as nat
        }
    }

    /// The cursor never leaves the sequence, and the sequence is one that
    /// a machine holds.
    pub proof fn lemma_in_range(self)
        ensures
            self.pos() <= self.tokens().len() <= usize::MAX,
    {
    }

    /// A cursor at the start of `tokens`.
    pub fn new(tokens: Vec<Token>) -> (stream: Self)
        ensures
            stream.tokens() == tokens.deep_view(),
            stream.pos() == 0,
    {
        Self { tokens, pos: 0 }
    }

    /// Whether every token has been consumed.
    pub fn is_empty(&self) -> (empty: bool)
        ensures
            empty == (self.pos() >= self.tokens().len()),
    {
        proof {
            use_type_invariant(self);
        }
        self.pos >= self.tokens.len()
    }

    /// The next token, which stays in the stream; `None` at the end.
    pub fn peek(&self) -> (next: Option<&Token>)
        ensures
            match next {
                Some(token) => self.pos() < self.tokens().len() && token@ == self.tokens()[
                    self.pos() as int],
                None => self.pos() >= self.tokens().len(),
            },
    {
        proof {
            use_type_invariant(self);
        }
        if self.pos < self.tokens.len() {
            Some(&self.tokens[self.pos])
        } else {
            None
        }
    }

    /// Consumes the next token and returns it; `None` at the end.
    pub fn next(&mut self) -> (next: Option<Token>)
        ensures
            final(self).tokens() == old(self).tokens(),
            match next {
                Some(token) => old(self).pos() < old(self).tokens().len()
                    && token@ == old(self).tokens()[old(self).pos() as int]
                    && final(self).pos() == old(self).pos() + 1,
                None => old(self).pos() >= old(self).tokens().len()
                    && final(self).pos() == old(self).pos(),
            },
    {
        proof {
            use_type_invariant(&*self);
        }
        if self.pos < self.tokens.len() {
            let token = self.tokens[self.pos].clone();
            self.pos = self.pos + 1;
            Some(token)
        } else {
            None
        }
    }

    /// The place that an error reports now.
    fn stop(&self) -> (place: (u32, u32))
        ensures
            place == stop_place(self.tokens(), self.pos()),
    {
        proof {
            use_type_invariant(self);
        }
        if self.pos > 0 {
            let last = &self.tokens[self.pos - 1];
            (last.row(), last.end_col())
        } else if self.tokens.len() > 0 {
            let first = &self.tokens[0];
            (first.row(), first.end_col())
        } else {
            (0, 0)
        }
    }

    /// The error of not finding a token of kind `expect` here: it says what
    /// stands here instead, or that the source has ended, and behind which
    /// place.
    pub fn mismatch(&self, expect: TokenKind) -> (error: CompileError)
        ensures
            error@ == mismatch(self.tokens(), self.pos(), expect@),
    {
        reveal(mismatch);
        proof {
            use_type_invariant(self);
        }
        let (row, col) = self.stop();
        if self.pos < self.tokens.len() {
            CompileError::Unexpected { row, col, expect, result: self.tokens[self.pos].kind() }
        } else {
            CompileError::Expected { row, col, expect }
        }
    }

    /// Consumes the next token if it is of kind `expect`, payload aside, and
    /// says whether it did. Otherwise the stream stays as it is.
    pub fn consume(&mut self, expect: TokenKind) -> (consumed: bool)
        ensures
            final(self).tokens() == old(self).tokens(),
            consumed == next_is(old(self).tokens(), old(self).pos(), expect@),
            final(self).pos() == if consumed {
                old(self).pos() + 1
            } else {
                old(self).pos()
            },
    {
        proof {
            use_type_invariant(&*self);
        }
        if self.pos < self.tokens.len() && self.tokens[self.pos].kind().same_kind(&expect) {
            self.pos = self.pos + 1;
            true
        } else {
            false
        }
    }

    /// Requires the next token to be of kind `expect`, payload aside:
    /// consumes it and returns its kind. Otherwise the stream stays as it
    /// is, and the error says what was found, or that the source ended, and
    /// behind which place.
    pub fn expect(&mut self, expect: TokenKind) -> (result: Result<TokenKind, CompileError>)
        ensures
            final(self).tokens() == old(self).tokens(),
            agrees(result, final(self).pos(), expect_at(old(self).tokens(), old(self).pos(), expect@)),
    {
        proof {
            use_type_invariant(&*self);
        }
        if self.pos < self.tokens.len() {
            let kind = self.tokens[self.pos].kind();
            if kind.same_kind(&expect) {
                self.pos = self.pos + 1;
                return Ok(kind);
            }
        }
        Err(self.mismatch(expect))
    }

    /// Requires the next token to be a number: consumes it and returns its
    /// value. Fails as [`TokenStream::expect`] does.
    pub fn expect_number(&mut self) -> (result: Result<u32, CompileError>)
        ensures
            final(self).tokens() == old(self).tokens(),
            match expect_at(old(self).tokens(), old(self).pos(), any_number()) {
                Parsed::Done { value, pos } => result is Ok && value == SpecKind::Num(
                    result->Ok_0,
                ) && final(self).pos() == pos,
                Parsed::Fail { error, pos } => result is Err && result->Err_0@ == error
                    && final(self).pos() == pos,
            },
    {
        proof {
            use_type_invariant(&*self);
        }
        if self.pos < self.tokens.len() {
            if let TokenKind::Num(num) = self.tokens[self.pos].kind() {
                self.pos = self.pos + 1;
                return Ok(num);
            }
        }
        Err(self.mismatch(TokenKind::Num(0)))
    }

    /// Requires the next token to be a variable: consumes it and returns its
    /// kind, which holds the name and the frame offset. Fails as
    /// [`TokenStream::expect`] does.
    pub fn expect_local_variable(&mut self) -> (result: Result<TokenKind, CompileError>)
        ensures
            final(self).tokens() == old(self).tokens(),
            agrees(
                result,
                final(self).pos(),
                expect_at(old(self).tokens(), old(self).pos(), any_variable()),
            ),
    {
        proof {
            use_type_invariant(&*self);
        }
        if self.pos < self.tokens.len() {
            let kind = self.tokens[self.pos].kind();
            if let TokenKind::LocalVar { .. } = kind {
                self.pos = self.pos + 1;
                return Ok(kind);
            }
        }
        Err(self.mismatch(TokenKind::LocalVar { symbol: String::new(), offset: 0 }))
    }
}

} // verus!
