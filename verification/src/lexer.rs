//! The lexer: from the lines of a source text to its tokens.
//!
//! A line is read from left to right. At each column the longest fixed word
//! is tried first (`return`, then `else`, then the words of two characters,
//! then those of one), then a variable's name or a number. A keyword counts
//! only where no letter, digit or underscore follows it. Blanks are skipped.
//! Columns count characters and, like rows, start at zero.

use crate::result::{CompileError, SpecError};
use crate::stream::TokenStream;
use crate::token::{
    is_alnum, is_var_first, low32, spec_is_alnum, spec_is_digit, spec_is_var_first, SpecKind,
    SpecToken, Token, TokenKind,
};
use vstd::prelude::*;

verus! {

/// What a fixed word or a blank at some column comes to: the kind of the
/// token, or none for a blank, and the number of characters taken.
pub struct Lexeme {
    pub kind: Option<SpecKind>,
    pub len: nat,
}

/// What the lexer has gathered: the tokens so far, and the names of the
/// variables in the order in which they were first seen.
pub struct LexState {
    pub tokens: Seq<SpecToken>,
    pub names: Seq<Seq<char>>,
}

/// What reading at one column comes to: the new state and the column to go
/// on from, or the error that ends the compilation.
pub enum Step {
    Next { state: LexState, col: nat },
    Stop { error: SpecError },
}

/// The most variables a source may name: the offset of the last one is the
/// largest multiple of eight below 2^31, so that every offset, and the size
/// of the frame, is an operand of 32 bits that the machine takes for what
/// it is.
pub const MAX_VARIABLES: usize = 268_435_455;

/// A space, a tab or a carriage return.
pub open spec fn is_blank(c: char) -> bool {
    c == ' ' || c == '\t' || c == '\r'
}

/// Whether `word` stands in `line` at `col`.
pub open spec fn has_word(line: Seq<char>, col: nat, word: Seq<char>) -> bool {
    col + word.len() <= line.len() && line.subrange(col as int, (col + word.len()) as int) == word
}

/// Whether no name can go on at `col`: the line ends there, or the
/// character is no letter, digit or underscore.
pub open spec fn word_ends(line: Seq<char>, col: nat) -> bool {
    col >= line.len() || !spec_is_alnum(line[col as int])
}

/// Whether the keyword `word` stands in `line` at `col`, with no name going
/// on behind it.
pub open spec fn has_keyword(line: Seq<char>, col: nat, word: Seq<char>) -> bool {
    has_word(line, col, word) && word_ends(line, col + word.len())
}

/// The lexeme of the token `kind`, written `word`.
pub open spec fn lexeme(kind: SpecKind, word: Seq<char>) -> Option<Lexeme> {
    Some(Lexeme { kind: Some(kind), len: word.len() })
}

/// The kind of the operator or punctuation mark `c`, if it is one.
pub open spec fn mark(c: char) -> Option<SpecKind> {
    if c == '<' {
        Some(SpecKind::Less)
    } else if c == '>' {
        Some(SpecKind::Greater)
    } else if c == '+' {
        Some(SpecKind::Add)
    } else if c == '-' {
        Some(SpecKind::Sub)
    } else if c == '*' {
        Some(SpecKind::Mul)
    } else if c == '/' {
        Some(SpecKind::Div)
    } else if c == '(' {
        Some(SpecKind::LRoundBracket)
    } else if c == ')' {
        Some(SpecKind::RRoundBracket)
    } else if c == ';' {
        Some(SpecKind::Semicolon)
    } else if c == '=' {
        Some(SpecKind::Assign)
    } else {
        None
    }
}

/// A blank or a mark of one character at `col`.
pub open spec fn one_word(line: Seq<char>, col: nat) -> Option<Lexeme> {
    if col >= line.len() {
        None
    } else if is_blank(line[col as int]) {
        Some(Lexeme { kind: None, len: 1 })
    } else {
        match mark(line[col as int]) {
            Some(kind) => Some(Lexeme { kind: Some(kind), len: 1 }),
            None => None,
        }
    }
}

/// `==`, `!=`, `>=`, `<=` or `if` at `col`; else what one character gives.
pub open spec fn two_word(line: Seq<char>, col: nat) -> Option<Lexeme> {
    if has_word(line, col, "=="@) {
        lexeme(SpecKind::Equal, "=="@)
    } else if has_word(line, col, "!="@) {
        lexeme(SpecKind::NEqual, "!="@)
    } else if has_word(line, col, ">="@) {
        lexeme(SpecKind::GreaterOrEqual, ">="@)
    } else if has_word(line, col, "<="@) {
        lexeme(SpecKind::LessOrEqual, "<="@)
    } else if has_keyword(line, col, "if"@) {
        lexeme(SpecKind::If, "if"@)
    } else {
        one_word(line, col)
    }
}

/// `else` at `col`; else what the shorter words give.
pub open spec fn four_word(line: Seq<char>, col: nat) -> Option<Lexeme> {
    if has_keyword(line, col, "else"@) {
        lexeme(SpecKind::Else, "else"@)
    } else {
        two_word(line, col)
    }
}

/// `return` at `col`; else what the shorter words give.
pub open spec fn six_word(line: Seq<char>, col: nat) -> Option<Lexeme> {
    if has_keyword(line, col, "return"@) {
        lexeme(SpecKind::Return, "return"@)
    } else {
        four_word(line, col)
    }
}

/// The token of kind `kind` at row `row` and column `col`, both in 32 bits.
pub open spec fn token_at(row: nat, col: nat, kind: SpecKind) -> SpecToken {
    SpecToken { col: low32(col as int), row: low32(row as int), kind }
}

/// `tokens` with the token of `lexeme`, if it has one, found at `row` and
/// `col`.
pub open spec fn with_lexeme(tokens: Seq<SpecToken>, lexeme: Lexeme, row: nat, col: nat) -> Seq<
    SpecToken,
> {
    match lexeme.kind {
        Some(kind) => tokens.push(token_at(row, col, kind)),
        None => tokens,
    }
}

/// The column behind the name that starts at `col`: the first one from
/// there that holds no letter, digit or underscore.
pub open spec fn name_end(line: Seq<char>, col: nat) -> nat
    decreases line.len() - col,
{
    if col < line.len() && spec_is_alnum(line[col as int]) {
        name_end(line, col + 1)
    } else {
        col
    }
}

/// The column behind the digits that start at `col`.
pub open spec fn digits_end(line: Seq<char>, col: nat) -> nat
    decreases line.len() - col,
{
    if col < line.len() && spec_is_digit(line[col as int]) {
        digits_end(line, col + 1)
    } else {
        col
    }
}

/// The value of the decimal digit `c`.
pub open spec fn digit_value(c: char) -> nat {
    if c == '1' {
        1
    } else if c == '2' {
        2
    } else if c == '3' {
        3
    } else if c == '4' {
        4
    } else if c == '5' {
        5
    } else if c == '6' {
        6
    } else if c == '7' {
        7
    } else if c == '8' {
        8
    } else if c == '9' {
        9
    } else {
        0
    }
}

/// The value of the digits of `line` from `from` up to `to`, read by
/// `value = value * 10 + digit` in 32 bits: a number too large wraps round.
pub open spec fn number_value(line: Seq<char>, from: nat, to: nat) -> u32
    decreases to,
{
    if to <= from || to > line.len() {
        0
    } else {
        low32(number_value(line, from, (to - 1) as nat) * 10 + digit_value(line[to - 1]))
    }
}

/// The frame offset of the variable that was seen as the `index`-th new
/// name, counting from zero: 8, 16, 24, ...
pub open spec fn offset_at(index: nat) -> u32 {
    low32((8 * (index + 1)) as int)
}

/// Looks `symbol` up among `names`, and enters it behind them if it is new:
/// the names then, and the offset of `symbol`. `None` if it is new and the
/// table is full.
pub open spec fn intern(names: Seq<Seq<char>>, symbol: Seq<char>) -> Option<
    (Seq<Seq<char>>, u32),
> {
    match names.index_of_first(symbol) {
        Some(index) => Some((names, offset_at(index as nat))),
        None => if names.len() < MAX_VARIABLES {
            Some((names.push(symbol), offset_at(names.len())))
        } else {
            None
        },
    }
}

/// A variable or a number at `col`, where a character stands that starts no
/// fixed word.
pub open spec fn other_word(line: Seq<char>, row: nat, col: nat, state: LexState) -> Step {
    if col < line.len() && spec_is_var_first(line[col as int]) {
        let end = name_end(line, col);
        let symbol = line.subrange(col as int, end as int);
        match intern(state.names, symbol) {
            Some((names, offset)) => Step::Next {
                state: LexState {
                    tokens: state.tokens.push(
                        token_at(row, col, SpecKind::LocalVar { symbol, offset }),
                    ),
                    names,
                },
                col: end,
            },
            None => Step::Stop { error: SpecError::TooManyVariables },
        }
    } else if col < line.len() && spec_is_digit(line[col as int]) {
        let end = digits_end(line, col);
        Step::Next {
            state: LexState {
                tokens: state.tokens.push(
                    token_at(row, col, SpecKind::Num(number_value(line, col, end))),
                ),
                names: state.names,
            },
            col: end,
        }
    } else {
        Step::Stop {
            error: SpecError::InvalidCharacter { row: low32(row as int), col: low32(col as int) },
        }
    }
}

/// What stands at `col`: a fixed word or a blank, else a variable or a
/// number, else nothing that the language knows.
pub open spec fn lex_step(line: Seq<char>, row: nat, col: nat, state: LexState) -> Step {
    match six_word(line, col) {
        Some(lexeme) => Step::Next {
            state: LexState {
                tokens: with_lexeme(state.tokens, lexeme, row, col),
                names: state.names,
            },
            col: col + lexeme.len,
        },
        None => other_word(line, row, col, state),
    }
}

/// The state behind the rest of `line` from `col`. (Every step moves on by
/// a character at least; the test for it shows that the function ends.)
pub open spec fn lex_line(line: Seq<char>, row: nat, col: nat, state: LexState) -> Result<
    LexState,
    SpecError,
>
    decreases line.len() - col,
{
    if col >= line.len() {
        Ok(state)
    } else {
        match lex_step(line, row, col, state) {
            Step::Next { state: next, col: behind } => if col < behind <= line.len() {
                lex_line(line, row, behind, next)
            } else {
                Ok(next)
            },
            Step::Stop { error } => Err(error),
        }
    }
}

/// The state behind the lines from `row` on.
pub open spec fn lex_lines(lines: Seq<Seq<char>>, row: nat, state: LexState) -> Result<
    LexState,
    SpecError,
>
    decreases lines.len() - row,
{
    if row >= lines.len() {
        Ok(state)
    } else {
        match lex_line(lines[row as int], row, 0, state) {
            Ok(next) => lex_lines(lines, row + 1, next),
            Err(error) => Err(error),
        }
    }
}

/// The tokens and the variables of a source, or the first error in it. A
/// source without lines is an error.
pub open spec fn lex(lines: Seq<Seq<char>>) -> Result<LexState, SpecError> {
    if lines.len() == 0 {
        Err(SpecError::Empty)
    } else {
        lex_lines(lines, 0, LexState { tokens: Seq::empty(), names: Seq::empty() })
    }
}

/// The low 32 bits of `n`.
fn low32_of(n: usize) -> (low: u32)
    ensures
        low == low32(n as int),
{
    ((n as u64) % 0x1_0000_0000) as u32
}

/// Appends the token of kind `kind` at `row` and `col`.
fn push_token(tokens: &mut Vec<Token>, row: usize, col: usize, kind: TokenKind)
    ensures
        final(tokens).deep_view() == old(tokens).deep_view().push(
            token_at(row as nat, col as nat, kind@),
        ),
{
    let token = Token::new(low32_of(col), low32_of(row), kind);
    tokens.push(token);
    assert(tokens.deep_view() =~= old(tokens).deep_view().push(
        token_at(row as nat, col as nat, kind@),
    ));
}

/// Whether `word` stands in `line` at `col`.
fn word_at(line: &String, col: usize, word: &str) -> (found: bool)
    ensures
        found == has_word(line@, col as nat, word@),
        found ==> col + word@.len() <= usize::MAX,
{
    let text = line.as_str();
    let len: usize = text.unicode_len();
    let n: usize = word.unicode_len();
    if col > len || len - col < n {
        return false;
    }
    let mut i: usize = 0;
    while i < n
        invariant
            text@ == line@,
            len == line@.len(),
            n == word@.len(),
            col + n <= len,
            i <= n,
            forall|j: int| 0 <= j < i ==> line@[col + j] == word@[j],
        decreases n - i,
    {
        if text.get_char(col + i) != word.get_char(i) {
            assert(line@.subrange(col as int, col + n)[i as int] != word@[i as int]);
            return false;
        }
        i += 1;
    }
    assert(line@.subrange(col as int, col + n) =~= word@);
    true
}

/// Whether no name can go on in `line` at `col`.
fn ends_at(line: &String, col: usize) -> (ends: bool)
    ensures
        ends == word_ends(line@, col as nat),
{
    let text = line.as_str();
    let len: usize = text.unicode_len();
    col >= len || !is_alnum(text.get_char(col))
}

/// Whether the keyword `word` stands in `line` at `col`, with no name going
/// on behind it.
fn keyword_at(line: &String, col: usize, word: &str) -> (found: bool)
    ensures
        found == has_keyword(line@, col as nat, word@),
        found ==> col + word@.len() <= usize::MAX,
{
    if word_at(line, col, word) {
        let n: usize = word.unicode_len();
        ends_at(line, col + n)
    } else {
        false
    }
}

/// Takes the word `word` of kind `kind`, which stands at `col`.
fn take_word(tokens: &mut Vec<Token>, row: usize, col: &mut usize, kind: TokenKind, word: &str)
    requires
        *old(col) + word@.len() <= usize::MAX,
    ensures
        *final(col) == *old(col) + word@.len(),
        final(tokens).deep_view() == old(tokens).deep_view().push(
            token_at(row as nat, *old(col) as nat, kind@),
        ),
{
    push_token(tokens, row, *col, kind);
    let n: usize = word.unicode_len();
    *col = *col + n;
}

/// Whether the cascade found `lexeme` at the old column and took it: the
/// token is appended and the column moved on, or nothing has changed.
pub open spec fn taken(
    lexeme: Option<Lexeme>,
    found: bool,
    row: nat,
    old_col: nat,
    new_col: nat,
    old_tokens: Seq<SpecToken>,
    new_tokens: Seq<SpecToken>,
) -> bool {
    match lexeme {
        Some(lexeme) => found && new_col == old_col + lexeme.len && new_tokens == with_lexeme(
            old_tokens,
            lexeme,
            row,
            old_col,
        ),
        None => !found && new_col == old_col && new_tokens == old_tokens,
    }
}

/// Tries `return` at `*col`, then the shorter words. Says whether it found
/// one; then the token is appended to `tokens` and `*col` stands behind it.
pub fn six_word_token(tokens: &mut Vec<Token>, line: &String, row: usize, col: &mut usize) -> (found:
    bool)
    ensures
        taken(
            six_word(line@, *old(col) as nat),
            found,
            row as nat,
            *old(col) as nat,
            *final(col) as nat,
            old(tokens).deep_view(),
            final(tokens).deep_view(),
        ),
{
    if keyword_at(line, *col, "return") {
        take_word(tokens, row, col, TokenKind::Return, "return");
        true
    } else {
        four_word_token(tokens, line, row, col)
    }
}

/// Tries `else` at `*col`, then the shorter words. Says whether it found
/// one; then the token is appended to `tokens` and `*col` stands behind it.
pub fn four_word_token(tokens: &mut Vec<Token>, line: &String, row: usize, col: &mut usize) -> (found:
    bool)
    ensures
        taken(
            four_word(line@, *old(col) as nat),
            found,
            row as nat,
            *old(col) as nat,
            *final(col) as nat,
            old(tokens).deep_view(),
            final(tokens).deep_view(),
        ),
{
    if keyword_at(line, *col, "else") {
        take_word(tokens, row, col, TokenKind::Else, "else");
        true
    } else {
        two_word_token(tokens, line, row, col)
    }
}

/// Tries `==`, `!=`, `>=`, `<=` and `if` at `*col`, then the words of one
/// character. Says whether it found one; then the token is appended to
/// `tokens` and `*col` stands behind it.
pub fn two_word_token(tokens: &mut Vec<Token>, line: &String, row: usize, col: &mut usize) -> (found:
    bool)
    ensures
        taken(
            two_word(line@, *old(col) as nat),
            found,
            row as nat,
            *old(col) as nat,
            *final(col) as nat,
            old(tokens).deep_view(),
            final(tokens).deep_view(),
        ),
{
    if word_at(line, *col, "==") {
        take_word(tokens, row, col, TokenKind::Equal, "==");
        true
    } else if word_at(line, *col, "!=") {
        take_word(tokens, row, col, TokenKind::NEqual, "!=");
        true
    } else if word_at(line, *col, ">=") {
        take_word(tokens, row, col, TokenKind::GreaterOrEqual, ">=");
        true
    } else if word_at(line, *col, "<=") {
        take_word(tokens, row, col, TokenKind::LessOrEqual, "<=");
        true
    } else if keyword_at(line, *col, "if") {
        take_word(tokens, row, col, TokenKind::If, "if");
        true
    } else {
        one_word_token(tokens, line, row, col)
    }
}

/// The kind of the operator or punctuation mark `c`, if it is one.
fn mark_of(c: char) -> (kind: Option<TokenKind>)
    ensures
        kind.deep_view() == mark(c),
{
    if c == '<' {
        Some(TokenKind::Less)
    } else if c == '>' {
        Some(TokenKind::Greater)
    } else if c == '+' {
        Some(TokenKind::Add)
    } else if c == '-' {
        Some(TokenKind::Sub)
    } else if c == '*' {
        Some(TokenKind::Mul)
    } else if c == '/' {
        Some(TokenKind::Div)
    } else if c == '(' {
        Some(TokenKind::LRoundBracket)
    } else if c == ')' {
        Some(TokenKind::RRoundBracket)
    } else if c == ';' {
        Some(TokenKind::Semicolon)
    } else if c == '=' {
        Some(TokenKind::Assign)
    } else {
        None
    }
}

/// Skips a blank at `*col`, or takes a mark of one character there. Says
/// whether it did; a mark's token is then appended to `tokens`, and `*col`
/// stands behind what was read.
pub fn one_word_token(tokens: &mut Vec<Token>, line: &String, row: usize, col: &mut usize) -> (found:
    bool)
    ensures
        taken(
            one_word(line@, *old(col) as nat),
            found,
            row as nat,
            *old(col) as nat,
            *final(col) as nat,
            old(tokens).deep_view(),
            final(tokens).deep_view(),
        ),
{
    let text = line.as_str();
    let len: usize = text.unicode_len();
    if *col >= len {
        return false;
    }
    let c = text.get_char(*col);
    if c == ' ' || c == '\t' || c == '\r' {
        *col = *col + 1;
        return true;
    }
    match mark_of(c) {
        Some(kind) => {
            push_token(tokens, row, *col, kind);
            *col = *col + 1;
            true
        },
        None => false,
    }
}

/// The value of the decimal digit `c`.
fn digit_of(c: char) -> (d: u32)
    ensures
        d == digit_value(c),
        d <= 9,
{
    if c == '1' {
        1
    } else if c == '2' {
        2
    } else if c == '3' {
        3
    } else if c == '4' {
        4
    } else if c == '5' {
        5
    } else if c == '6' {
        6
    } else if c == '7' {
        7
    } else if c == '8' {
        8
    } else if c == '9' {
        9
    } else {
        0
    }
}

/// Whether `c` is a decimal digit.
fn is_digit(c: char) -> (b: bool)
    ensures
        b == spec_is_digit(c),
{
    '0' <= c && c <= '9'
}

/// The number that starts at `col`: its value and how many digits it has,
/// or `None` where no digit stands.
fn num_token(line: &String, col: usize) -> (number: Option<(u32, usize)>)
    ensures
        match number {
            Some((value, count)) => col < line@.len() && spec_is_digit(line@[col as int]) && col
                + count == digits_end(line@, col as nat) && value == number_value(
                line@,
                col as nat,
                digits_end(line@, col as nat),
            ) && 0 < count && col + count <= line@.len() <= usize::MAX,
            None => !(col < line@.len() && spec_is_digit(line@[col as int])),
        },
{
    let text = line.as_str();
    let len: usize = text.unicode_len();
    if col >= len || !is_digit(text.get_char(col)) {
        return None;
    }
    let mut value: u32 = 0;
    let mut end: usize = col;
    while end < len && is_digit(text.get_char(end))
        invariant
            text@ == line@,
            len == line@.len(),
            col <= end <= len,
            col < len,
            spec_is_digit(line@[col as int]),
            end == col ==> value == 0,
            digits_end(line@, end as nat) == digits_end(line@, col as nat),
            value == number_value(line@, col as nat, end as nat),
        decreases len - end,
    {
        let d: u32 = digit_of(text.get_char(end));
        value = ((value as u64 * 10 + d as u64) % 0x1_0000_0000) as u32;
        end += 1;
    }
    Some((value, end - col))
}

/// The name that starts at `col`: the name and how many characters it has,
/// or `None` where no name starts.
fn var_token(line: &String, col: usize) -> (name: Option<(String, usize)>)
    ensures
        match name {
            Some((symbol, count)) => col < line@.len() && spec_is_var_first(line@[col as int])
                && col + count == name_end(line@, col as nat) && symbol@ == line@.subrange(
                col as int,
                name_end(line@, col as nat) as int,
            ) && 0 < count && col + count <= line@.len() <= usize::MAX,
            None => !(col < line@.len() && spec_is_var_first(line@[col as int])),
        },
{
    let text = line.as_str();
    let len: usize = text.unicode_len();
    if col >= len || !is_var_first(text.get_char(col)) {
        return None;
    }
    let mut end: usize = col + 1;
    while end < len && is_alnum(text.get_char(end))
        invariant
            text@ == line@,
            len == line@.len(),
            col < end <= len,
            name_end(line@, end as nat) == name_end(line@, col as nat),
        decreases len - end,
    {
        end += 1;
    }
    let symbol = String::from_str(text.substring_char(col, end));
    Some((symbol, end - col))
}

/// The place of `symbol` among `variables`, if it is there.
fn find_variable(variables: &Vec<String>, symbol: &String) -> (found: Option<usize>)
    ensures
        match found {
            Some(index) => variables.deep_view().index_of_first(symbol@) == Some(index as int),
            None => variables.deep_view().index_of_first(symbol@) is None,
        },
{
    let ghost names = variables.deep_view();
    let mut i: usize = 0;
    while i < variables.len()
        invariant
            names == variables.deep_view(),
            i <= variables.len(),
            forall|j: int| 0 <= j < i ==> names[j] != symbol@,
        decreases variables.len() - i,
    {
        if variables[i] == *symbol {
            proof {
                names.index_of_first_ensures(symbol@);
                assert(names[i as int] == symbol@);
                let first = names.index_of_first(symbol@)->0;
                if first < i {
                    assert(names[first] != symbol@);
                }
            }
            return Some(i);
        }
        i += 1;
    }
    proof {
        names.index_of_first_ensures(symbol@);
    }
    None
}

/// Looks `symbol` up among `variables` and enters it behind them if it is
/// new: its frame offset, or `None` if it is new and the table is full.
fn intern_variable(variables: &mut Vec<String>, symbol: &String) -> (offset: Option<u32>)
    ensures
        match intern(old(variables).deep_view(), symbol@) {
            Some((names, at)) => offset == Some(at) && final(variables).deep_view() == names,
            None => offset is None && final(variables).deep_view() == old(variables).deep_view(),
        },
        old(variables).len() <= MAX_VARIABLES ==> final(variables).len() <= MAX_VARIABLES,
{
    let index: usize = match find_variable(variables, symbol) {
        Some(index) => index,
        None => {
            if variables.len() >= MAX_VARIABLES {
                return None;
            }
            let index: usize = variables.len();
            variables.push(symbol.clone());
            assert(variables.deep_view() =~= old(variables).deep_view().push(symbol@));
            index
        },
    };
    Some((((index as u128 + 1) * 8) % 0x1_0000_0000) as u32)
}

/// Whether reading a variable or a number at `old_col` came to `step`: the
/// token is appended, a new name entered and the column moved on; or the
/// error is returned and nothing has changed.
pub open spec fn stepped(
    step: Step,
    result: Result<(), CompileError>,
    old_col: nat,
    new_col: nat,
    old: LexState,
    new: LexState,
) -> bool {
    match step {
        Step::Next { state, col } => result is Ok && new_col == col && new == state,
        Step::Stop { error } => result is Err && result->Err_0@ == error && new_col == old_col
            && new == old,
    }
}

/// Takes the variable or the number at `*col`: appends its token to
/// `tokens`, enters a new name in `variables`, and moves `*col` behind it.
/// Fails where neither stands, or where a new name finds the table full.
pub fn other_word_token(
    tokens: &mut Vec<Token>,
    line: &String,
    variables: &mut Vec<String>,
    row: usize,
    col: &mut usize,
) -> (result: Result<(), CompileError>)
    ensures
        stepped(
            other_word(
                line@,
                row as nat,
                *old(col) as nat,
                LexState { tokens: old(tokens).deep_view(), names: old(variables).deep_view() },
            ),
            result,
            *old(col) as nat,
            *final(col) as nat,
            LexState { tokens: old(tokens).deep_view(), names: old(variables).deep_view() },
            LexState { tokens: final(tokens).deep_view(), names: final(variables).deep_view() },
        ),
        result is Ok ==> *old(col) < *final(col) <= line@.len(),
        old(variables).len() <= MAX_VARIABLES ==> final(variables).len() <= MAX_VARIABLES,
{
    if let Some((symbol, count)) = var_token(line, *col) {
        match intern_variable(variables, &symbol) {
            Some(offset) => {
                push_token(tokens, row, *col, TokenKind::LocalVar { symbol, offset });
                *col = *col + count;
                Ok(())
            },
            None => Err(CompileError::TooManyVariables),
        }
    } else if let Some((value, count)) = num_token(line, *col) {
        push_token(tokens, row, *col, TokenKind::Num(value));
        *col = *col + count;
        Ok(())
    } else {
        Err(CompileError::InvalidCharacter { row: low32_of(row), col: low32_of(*col) })
    }
}

/// A fixed word or a blank takes at least one character, and lies inside
/// the line.
pub proof fn lemma_six_word_advances(line: Seq<char>, col: nat)
    ensures
        match six_word(line, col) {
            Some(lexeme) => 0 < lexeme.len && col + lexeme.len <= line.len(),
            None => true,
        },
{
    reveal_strlit("return");
    reveal_strlit("else");
    reveal_strlit("==");
    reveal_strlit("!=");
    reveal_strlit(">=");
    reveal_strlit("<=");
    reveal_strlit("if");
}

/// Reads the line `line`, which is line `row` of the source: appends its
/// tokens to `tokens` and enters its new names in `variables`.
fn tokenize_line(
    tokens: &mut Vec<Token>,
    line: &String,
    variables: &mut Vec<String>,
    row: usize,
) -> (result: Result<(), CompileError>)
    requires
        old(variables).len() <= MAX_VARIABLES,
    ensures
        match lex_line(
            line@,
            row as nat,
            0,
            LexState { tokens: old(tokens).deep_view(), names: old(variables).deep_view() },
        ) {
            Ok(state) => result is Ok && final(tokens).deep_view() == state.tokens
                && final(variables).deep_view() == state.names,
            Err(error) => result is Err && result->Err_0@ == error,
        },
        final(variables).len() <= MAX_VARIABLES,
{
    let ghost start = LexState { tokens: tokens.deep_view(), names: variables.deep_view() };
    let len: usize = line.as_str().unicode_len();
    let mut col: usize = 0;
    while col < len
        invariant
            start == (LexState {
                tokens: old(tokens).deep_view(),
                names: old(variables).deep_view(),
            }),
            len == line@.len(),
            col <= len,
            variables.len() <= MAX_VARIABLES,
            lex_line(
                line@,
                row as nat,
                col as nat,
                LexState { tokens: tokens.deep_view(), names: variables.deep_view() },
            ) == lex_line(line@, row as nat, 0, start),
        decreases len - col,
    {
        proof {
            lemma_six_word_advances(line@, col as nat);
        }
        if !six_word_token(tokens, line, row, &mut col) {
            match other_word_token(tokens, line, variables, row, &mut col) {
                Ok(()) => {},
                Err(error) => return Err(error),
            }
        }
    }
    Ok(())
}

/// The tokens of `source`, as a cursor at the first of them, and the number
/// of variables that it names.
///
/// Each variable has the frame offset of its name: the first name seen has
/// 8, the next new one 16, and so on. Fails on a source without lines, on a
/// character that starts no token, and on more names than offsets.
pub fn tokenize(source: Vec<String>) -> (result: Result<(TokenStream, u32), CompileError>)
    ensures
        match lex(source.deep_view()) {
            Ok(state) => result is Ok && result->Ok_0.0.tokens() == state.tokens
                && result->Ok_0.0.pos() == 0 && result->Ok_0.1 == state.names.len(),
            Err(error) => result is Err && result->Err_0@ == error,
        },
{
    if source.len() == 0 {
        return Err(CompileError::Empty);
    }
    let ghost lines = source.deep_view();
    let mut tokens: Vec<Token> = Vec::new();
    let mut variables: Vec<String> = Vec::new();
    assert(tokens.deep_view() =~= Seq::<SpecToken>::empty());
    assert(variables.deep_view() =~= Seq::<Seq<char>>::empty());
    let mut row: usize = 0;
    while row < source.len()
        invariant
            lines == source.deep_view(),
            lines.len() == source.len(),
            row <= source.len(),
            variables.len() <= MAX_VARIABLES,
            lex_lines(
                lines,
                row as nat,
                LexState { tokens: tokens.deep_view(), names: variables.deep_view() },
            ) == lex(lines),
        decreases source.len() - row,
    {
        assert(lines[row as int] == source[row as int]@);
        match tokenize_line(&mut tokens, &source[row], &mut variables, row) {
            Ok(()) => {},
            Err(error) => return Err(error),
        }
        row += 1;
    }
    let count: u32 = variables.len() as u32;
    Ok((TokenStream::new(tokens), count))
}

/// The name that starts at `col`: the letters, digits and underscores from
/// there on, as far as they go.
pub open spec fn name_at(line: Seq<char>, col: nat) -> Seq<char> {
    line.subrange(col as int, name_end(line, col) as int)
}

/// A name ends inside the line, is made of letters, digits and underscores
/// alone, and cannot go on where it ends.
proof fn lemma_name_end(line: Seq<char>, col: nat)
    requires
        col <= line.len(),
    ensures
        col <= name_end(line, col) <= line.len(),
        forall|k: int| col <= k < name_end(line, col) ==> spec_is_alnum(#[trigger] line[k]),
        word_ends(line, name_end(line, col)),
    decreases line.len() - col,
{
    if col < line.len() && spec_is_alnum(line[col as int]) {
        lemma_name_end(line, col + 1);
    }
}

/// Letters, digits and underscores up to a place where no name can go on
/// are a name that ends there.
proof fn lemma_name_ends_at(line: Seq<char>, col: nat, end: nat)
    requires
        col <= end <= line.len(),
        forall|k: int| col <= k < end ==> spec_is_alnum(#[trigger] line[k]),
        word_ends(line, end),
    ensures
        name_end(line, col) == end,
    decreases end - col,
{
    if col < end {
        assert(spec_is_alnum(line[col as int]));
        lemma_name_ends_at(line, col + 1, end);
    }
}

/// A keyword stands at `col` exactly where the whole name that starts
/// there is the keyword.
proof fn lemma_keyword_is_name(line: Seq<char>, col: nat, word: Seq<char>)
    requires
        col <= line.len(),
        forall|k: int| 0 <= k < word.len() ==> spec_is_alnum(#[trigger] word[k]),
    ensures
        has_keyword(line, col, word) <==> name_at(line, col) == word,
{
    lemma_name_end(line, col);
    if has_keyword(line, col, word) {
        let end = col + word.len();
        assert forall|k: int| col <= k < end implies spec_is_alnum(#[trigger] line[k]) by {
            assert(line.subrange(col as int, end as int)[k - col] == word[k - col]);
        }
        lemma_name_ends_at(line, col, end);
    }
    if name_at(line, col) == word {
        assert(word.len() == name_end(line, col) - col);
    }
}

/// Where a letter or an underscore stands, the longest run of letters,
/// digits and underscores is read as one word: it is a keyword if the whole
/// run is `return`, `else` or `if`, and a name else. No keyword is found
/// inside a longer name, and no name inside a keyword.
pub proof fn lemma_keywords_are_whole_names(line: Seq<char>, col: nat)
    requires
        col < line.len(),
        spec_is_var_first(line[col as int]),
    ensures
        six_word(line, col) == if name_at(line, col) == "return"@ {
            lexeme(SpecKind::Return, "return"@)
        } else if name_at(line, col) == "else"@ {
            lexeme(SpecKind::Else, "else"@)
        } else if name_at(line, col) == "if"@ {
            lexeme(SpecKind::If, "if"@)
        } else {
            None
        },
{
    reveal_strlit("return");
    reveal_strlit("else");
    reveal_strlit("==");
    reveal_strlit("!=");
    reveal_strlit(">=");
    reveal_strlit("<=");
    reveal_strlit("if");
    lemma_keyword_is_name(line, col, "return"@);
    lemma_keyword_is_name(line, col, "else"@);
    lemma_keyword_is_name(line, col, "if"@);
    assert forall|word: Seq<char>|
        word.len() > 0 && !spec_is_var_first(word[0]) implies !has_word(line, col, word) by {
        if has_word(line, col, word) {
            assert(line.subrange(col as int, (col + word.len()) as int)[0] == word[0]);
        }
    }
    assert("=="@[0] == '=' && "!="@[0] == '!' && ">="@[0] == '>' && "<="@[0] == '<');
}

/// Whether `error` is one that the lexer gives.
pub open spec fn is_lexical(error: SpecError) -> bool {
    error is Empty || error is InvalidCharacter || error is TooManyVariables
}

proof fn lemma_line_errors(line: Seq<char>, row: nat, col: nat, state: LexState)
    ensures
        match lex_line(line, row, col, state) {
            Ok(_) => true,
            Err(error) => is_lexical(error),
        },
    decreases line.len() - col,
{
    if col < line.len() {
        match lex_step(line, row, col, state) {
            Step::Next { state: next, col: behind } => {
                if col < behind <= line.len() {
                    lemma_line_errors(line, row, behind, next);
                }
            },
            Step::Stop { .. } => {},
        }
    }
}

proof fn lemma_lines_errors(lines: Seq<Seq<char>>, row: nat, state: LexState)
    ensures
        match lex_lines(lines, row, state) {
            Ok(_) => true,
            Err(error) => is_lexical(error),
        },
    decreases lines.len() - row,
{
    if row < lines.len() {
        lemma_line_errors(lines[row as int], row, 0, state);
        match lex_line(lines[row as int], row, 0, state) {
            Ok(next) => {
                lemma_lines_errors(lines, row + 1, next);
            },
            Err(_) => {},
        }
    }
}

/// The lexer fails in three ways only: on a source without lines, on a
/// character that starts no token, and on too many variables.
pub proof fn lemma_lex_errors(lines: Seq<Seq<char>>)
    ensures
        match lex(lines) {
            Ok(_) => true,
            Err(error) => is_lexical(error),
        },
{
    if lines.len() > 0 {
        lemma_lines_errors(lines, 0, LexState { tokens: Seq::empty(), names: Seq::empty() });
    }
}

/// Whether `token`, if it is a variable, has the offset of its name's
/// place among `names`.
pub open spec fn bound(names: Seq<Seq<char>>, token: SpecToken) -> bool {
    token.kind is LocalVar ==> exists|index: int|
        0 <= index < names.len() && #[trigger] names[index] == token.kind->symbol
            && token.kind->offset == 8 * (index + 1)
}

/// Whether the symbol table is in order: no name stands twice in it, it
/// holds no more names than there are offsets, and every variable among
/// the tokens has the offset of its name.
pub open spec fn coherent(state: LexState) -> bool {
    &&& state.names.no_duplicates()
    &&& state.names.len() <= MAX_VARIABLES
    &&& forall|i: int| 0 <= i < state.tokens.len() ==> bound(state.names, #[trigger] state.tokens[i])
}

/// Reading at one column keeps the symbol table in order.
proof fn lemma_step_coherent(line: Seq<char>, row: nat, col: nat, state: LexState)
    requires
        coherent(state),
    ensures
        match lex_step(line, row, col, state) {
            Step::Next { state: next, .. } => coherent(next),
            Step::Stop { .. } => true,
        },
{
    match lex_step(line, row, col, state) {
        Step::Next { state: next, .. } => {
            match six_word(line, col) {
                Some(lexeme) => {
                    assert(!(lexeme.kind is Some && lexeme.kind->0 is LocalVar));
                    assert forall|i: int| 0 <= i < next.tokens.len() implies bound(
                        next.names,
                        #[trigger] next.tokens[i],
                    ) by {
                        if i < state.tokens.len() {
                            assert(next.tokens[i] == state.tokens[i]);
                        }
                    }
                },
                None => {
                    if spec_is_var_first(line[col as int]) {
                        let end = name_end(line, col);
                        let symbol = line.subrange(col as int, end as int);
                        state.names.index_of_first_ensures(symbol);
                        let old_names = state.names;
                        let index: int = match state.names.index_of_first(symbol) {
                            Some(index) => index,
                            None => state.names.len() as int,
                        };
                        assert(next.names[index] == symbol);
                        assert(offset_at(index as nat) == 8 * (index + 1));
                        assert forall|i: int| 0 <= i < next.tokens.len() implies bound(
                            next.names,
                            #[trigger] next.tokens[i],
                        ) by {
                            if i < state.tokens.len() {
                                assert(next.tokens[i] == state.tokens[i]);
                                assert(bound(old_names, state.tokens[i]));
                                if state.tokens[i].kind is LocalVar {
                                    let at = choose|at: int|
                                        0 <= at < old_names.len() && #[trigger] old_names[at]
                                            == state.tokens[i].kind->symbol
                                            && state.tokens[i].kind->offset == 8 * (at + 1);
                                    assert(next.names[at] == old_names[at]);
                                }
                            }
                        }
                        assert(next.names.no_duplicates()) by {
                            if state.names.index_of_first(symbol) is None {
                                assert forall|i: int, j: int|
                                    0 <= i < next.names.len() && 0 <= j < next.names.len() && i
                                        != j implies next.names[i] != next.names[j] by {
                                    if i < old_names.len() {
                                        assert(old_names.contains(old_names[i]));
                                    }
                                    if j < old_names.len() {
                                        assert(old_names.contains(old_names[j]));
                                    }
                                }
                            }
                        }
                    } else {
                        assert forall|i: int| 0 <= i < next.tokens.len() implies bound(
                            next.names,
                            #[trigger] next.tokens[i],
                        ) by {
                            if i < state.tokens.len() {
                                assert(next.tokens[i] == state.tokens[i]);
                            }
                        }
                    }
                },
            }
        },
        Step::Stop { .. } => {},
    }
}

/// Whether the `k`-th name of the table is that of a variable among the
/// tokens, which carries the offset `8 * (k + 1)`.
pub open spec fn used(state: LexState, k: int) -> bool {
    exists|i: int|
        0 <= i < state.tokens.len() && (#[trigger] state.tokens[i]).kind == (SpecKind::LocalVar {
            symbol: state.names[k],
            offset: offset_at(k as nat),
        })
}

/// Whether every name of the table is that of a variable among the tokens.
pub open spec fn in_use(state: LexState) -> bool {
    forall|k: int| 0 <= k < state.names.len() ==> #[trigger] used(state, k)
}

/// Reading at one column enters no name without a token for it, and
/// keeps the tokens that there are.
proof fn lemma_step_in_use(line: Seq<char>, row: nat, col: nat, state: LexState)
    requires
        in_use(state),
    ensures
        match lex_step(line, row, col, state) {
            Step::Next { state: next, .. } => in_use(next),
            Step::Stop { .. } => true,
        },
{
    match lex_step(line, row, col, state) {
        Step::Next { state: next, .. } => {
            state.names.index_of_first_ensures(name_at(line, col));
            assert(state.tokens.len() <= next.tokens.len());
            assert(state.names.len() <= next.names.len() <= state.names.len() + 1);
            assert forall|k: int| 0 <= k < next.names.len() implies #[trigger] used(next, k) by {
                if k < state.names.len() {
                    assert(used(state, k));
                    let i = choose|i: int|
                        0 <= i < state.tokens.len() && (#[trigger] state.tokens[i]).kind == (
                        SpecKind::LocalVar {
                            symbol: state.names[k],
                            offset: offset_at(k as nat),
                        });
                    assert(next.tokens[i] == state.tokens[i]);
                    assert(next.names[k] == state.names[k]);
                } else {
                    let i = state.tokens.len() as int;
                    assert(next.tokens[i].kind == (SpecKind::LocalVar {
                        symbol: next.names[k],
                        offset: offset_at(k as nat),
                    }));
                }
            }
        },
        Step::Stop { .. } => {},
    }
}

/// Reading the rest of a line keeps the symbol table in order.
proof fn lemma_line_coherent(line: Seq<char>, row: nat, col: nat, state: LexState)
    requires
        coherent(state),
        in_use(state),
    ensures
        match lex_line(line, row, col, state) {
            Ok(next) => coherent(next) && in_use(next),
            Err(_) => true,
        },
    decreases line.len() - col,
{
    if col < line.len() {
        lemma_step_coherent(line, row, col, state);
        lemma_step_in_use(line, row, col, state);
        match lex_step(line, row, col, state) {
            Step::Next { state: next, col: behind } => {
                if col < behind <= line.len() {
                    lemma_line_coherent(line, row, behind, next);
                }
            },
            Step::Stop { .. } => {},
        }
    }
}

/// Reading the lines from `row` on keeps the symbol table in order.
proof fn lemma_lines_coherent(lines: Seq<Seq<char>>, row: nat, state: LexState)
    requires
        coherent(state),
        in_use(state),
    ensures
        match lex_lines(lines, row, state) {
            Ok(next) => coherent(next) && in_use(next),
            Err(_) => true,
        },
    decreases lines.len() - row,
{
    if row < lines.len() {
        lemma_line_coherent(lines[row as int], row, 0, state);
        match lex_line(lines[row as int], row, 0, state) {
            Ok(next) => {
                lemma_lines_coherent(lines, row + 1, next);
            },
            Err(_) => {},
        }
    }
}

/// The symbol table of a source is in order: offsets are given in the
/// order in which the names are first seen, as 8, 16, 24 and so on, and no
/// name is entered twice. Every name of the table is that of a variable
/// among the tokens: with `n` names the offsets in use are exactly 8, 16,
/// and so on up to `8 * n`.
pub proof fn lemma_lex_coherent(lines: Seq<Seq<char>>)
    ensures
        match lex(lines) {
            Ok(state) => coherent(state) && in_use(state),
            Err(_) => true,
        },
{
    if lines.len() > 0 {
        lemma_lines_coherent(lines, 0, LexState { tokens: Seq::empty(), names: Seq::empty() });
    }
}

/// Within one source a name always has the same offset, and two names
/// never share one: two variables among the tokens have the same offset if
/// and only if they have the same name. Every offset is a multiple of
/// eight, from 8 up to eight times the number of variables, and below
/// 2^31.
pub proof fn lemma_same_name_same_offset(lines: Seq<Seq<char>>, i: int, j: int)
    requires
        lex(lines) is Ok,
        0 <= i < lex(lines)->Ok_0.tokens.len(),
        0 <= j < lex(lines)->Ok_0.tokens.len(),
        lex(lines)->Ok_0.tokens[i].kind is LocalVar,
        lex(lines)->Ok_0.tokens[j].kind is LocalVar,
    ensures
        ({
            let state = lex(lines)->Ok_0;
            let first = state.tokens[i].kind;
            let second = state.tokens[j].kind;
            &&& first->symbol == second->symbol <==> first->offset == second->offset
            &&& first->offset % 8 == 0
            &&& 8 <= first->offset <= 8 * state.names.len() < 0x8000_0000
        }),
{
    lemma_lex_coherent(lines);
    let state = lex(lines)->Ok_0;
    assert(bound(state.names, state.tokens[i]));
    assert(bound(state.names, state.tokens[j]));
}

/// Lexing depends on the text alone: sources with the same lines have the
/// same tokens at the same rows and columns, and the same variables.
pub proof fn lemma_lex_again(first: Seq<Seq<char>>, second: Seq<Seq<char>>)
    requires
        first.len() == second.len(),
        forall|row: int| 0 <= row < first.len() ==> first[row] =~= second[row],
    ensures
        lex(first) == lex(second),
{
    assert(first =~= second);
}

/// Digits end inside the line, behind the first of them.
proof fn lemma_digits_end(line: Seq<char>, col: nat)
    requires
        col <= line.len(),
    ensures
        col <= digits_end(line, col) <= line.len(),
        col < line.len() && spec_is_digit(line[col as int]) ==> col < digits_end(line, col),
    decreases line.len() - col,
{
    if col < line.len() && spec_is_digit(line[col as int]) {
        lemma_digits_end(line, col + 1);
    }
}

/// Whether the tokens from `from` on stand on row `row`, one behind the
/// other, at columns below `col`.
pub open spec fn in_order(tokens: Seq<SpecToken>, from: nat, row: nat, col: nat) -> bool {
    &&& forall|i: int|
        from <= i < tokens.len() ==> (#[trigger] tokens[i]).row == low32(row as int)
            && tokens[i].col < col
    &&& forall|i: int, j: int|
        from <= i < j < tokens.len() ==> (#[trigger] tokens[i]).col < (#[trigger] tokens[j]).col
}

/// Whether `longer` is `tokens` with more tokens behind.
pub open spec fn extends(longer: Seq<SpecToken>, tokens: Seq<SpecToken>) -> bool {
    tokens.len() <= longer.len() && forall|i: int|
        0 <= i < tokens.len() ==> #[trigger] longer[i] == tokens[i]
}

/// Reading at one column moves on, and puts a token behind those of the
/// line that there are.
proof fn lemma_step_in_order(line: Seq<char>, row: nat, col: nat, state: LexState, from: nat)
    requires
        col < line.len() <= u32::MAX,
        from <= state.tokens.len(),
        in_order(state.tokens, from, row, col),
    ensures
        match lex_step(line, row, col, state) {
            Step::Next { state: next, col: behind } => col < behind <= line.len() && in_order(
                next.tokens,
                from,
                row,
                behind,
            ) && extends(next.tokens, state.tokens),
            Step::Stop { .. } => true,
        },
{
    lemma_six_word_advances(line, col);
    lemma_name_end(line, col + 1);
    lemma_digits_end(line, col);
    match lex_step(line, row, col, state) {
        Step::Next { state: next, col: behind } => {
            assert(low32(col as int) == col);
            assert forall|i: int| from <= i < next.tokens.len() implies (
            #[trigger] next.tokens[i]).row == low32(row as int) && next.tokens[i].col < behind by {
                if i < state.tokens.len() {
                    assert(next.tokens[i] == state.tokens[i]);
                }
            }
            assert forall|i: int, j: int| from <= i < j < next.tokens.len() implies (
            #[trigger] next.tokens[i]).col < (#[trigger] next.tokens[j]).col by {
                assert(next.tokens[i] == state.tokens[i]);
                if j < state.tokens.len() {
                    assert(next.tokens[j] == state.tokens[j]);
                }
            }
        },
        Step::Stop { .. } => {},
    }
}

/// Reading the rest of a line puts its tokens one behind the other, inside
/// the line.
proof fn lemma_line_in_order(line: Seq<char>, row: nat, col: nat, state: LexState, from: nat)
    requires
        col <= line.len() <= u32::MAX,
        from <= state.tokens.len(),
        in_order(state.tokens, from, row, col),
    ensures
        match lex_line(line, row, col, state) {
            Ok(next) => in_order(next.tokens, from, row, line.len()) && extends(
                next.tokens,
                state.tokens,
            ),
            Err(_) => true,
        },
    decreases line.len() - col,
{
    if col < line.len() {
        lemma_step_in_order(line, row, col, state, from);
        match lex_step(line, row, col, state) {
            Step::Next { state: next, col: behind } => {
                lemma_line_in_order(line, row, behind, next, from);
            },
            Step::Stop { .. } => {},
        }
    }
}

/// Whether the tokens stand in the order in which the source is read, each
/// inside its line: rows do not fall, and columns rise within a row.
pub open spec fn in_reading_order(tokens: Seq<SpecToken>, lines: Seq<Seq<char>>) -> bool {
    &&& forall|i: int|
        0 <= i < tokens.len() ==> (#[trigger] tokens[i]).row < lines.len() && tokens[i].col
            < lines[tokens[i].row as int].len()
    &&& forall|i: int, j: int|
        0 <= i < j < tokens.len() ==> (#[trigger] tokens[i]).row < (#[trigger] tokens[j]).row || (
        tokens[i].row == tokens[j].row && tokens[i].col < tokens[j].col)
}

/// Reading the lines from `row` on puts their tokens behind those of the
/// lines before.
proof fn lemma_lines_in_order(lines: Seq<Seq<char>>, row: nat, state: LexState)
    requires
        row <= lines.len() <= u32::MAX,
        forall|r: int| 0 <= r < lines.len() ==> (#[trigger] lines[r]).len() <= u32::MAX,
        in_reading_order(state.tokens, lines),
        forall|i: int| 0 <= i < state.tokens.len() ==> (#[trigger] state.tokens[i]).row < row,
    ensures
        match lex_lines(lines, row, state) {
            Ok(next) => in_reading_order(next.tokens, lines),
            Err(_) => true,
        },
    decreases lines.len() - row,
{
    if row < lines.len() {
        let line = lines[row as int];
        let from = state.tokens.len();
        lemma_line_in_order(line, row, 0, state, from);
        match lex_line(line, row, 0, state) {
            Ok(next) => {
                assert(low32(row as int) == row);
                assert forall|i: int| 0 <= i < next.tokens.len() implies (
                #[trigger] next.tokens[i]).row < row + 1 && next.tokens[i].row < lines.len()
                    && next.tokens[i].col < lines[next.tokens[i].row as int].len() by {
                    if i < from {
                        assert(next.tokens[i] == state.tokens[i]);
                    }
                }
                assert forall|i: int, j: int| 0 <= i < j < next.tokens.len() implies (
                #[trigger] next.tokens[i]).row < (#[trigger] next.tokens[j]).row || (
                next.tokens[i].row == next.tokens[j].row && next.tokens[i].col
                    < next.tokens[j].col) by {
                    if i < from {
                        assert(next.tokens[i] == state.tokens[i]);
                    }
                    if j < from {
                        assert(next.tokens[j] == state.tokens[j]);
                    }
                }
                lemma_lines_in_order(lines, row + 1, next);
            },
            Err(_) => {},
        }
    }
}

/// The tokens of a source stand in the order in which it is read, each at
/// a place inside its line: rows do not fall, and columns rise within a
/// row. (Rows and columns are kept in 32 bits; this holds of a source whose
/// rows and columns 32 bits can count.)
pub proof fn lemma_lex_in_order(lines: Seq<Seq<char>>)
    requires
        lines.len() <= u32::MAX,
        forall|r: int| 0 <= r < lines.len() ==> (#[trigger] lines[r]).len() <= u32::MAX,
    ensures
        match lex(lines) {
            Ok(state) => in_reading_order(state.tokens, lines),
            Err(_) => true,
        },
{
    if lines.len() > 0 {
        lemma_lines_in_order(lines, 0, LexState { tokens: Seq::empty(), names: Seq::empty() });
    }
}

} // verus!
