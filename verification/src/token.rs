//! Tokens: the kinds of lexical unit, their textual length and their names.

use vstd::prelude::*;

verus! {

/// What a token is. Numbers and variables carry a payload.
#[derive(Debug, PartialEq)]
pub enum TokenKind {
    /// Addition | +
    Add,
    /// Subtraction | -
    Sub,
    /// Multiplication | *
    Mul,
    /// Division | /
    Div,
    /// Left hand bracket | (
    LRoundBracket,
    /// Right hand bracket | )
    RRoundBracket,
    /// Equal to | ==
    Equal,
    /// Not equal to | !=
    NEqual,
    /// Less than | <
    Less,
    /// Greater than | >
    Greater,
    /// Less than or equal to | <=
    LessOrEqual,
    /// Greater than or equal to | >=
    GreaterOrEqual,
    /// Number | 1, 2, ...
    Num(u32),
    /// Local variable | (a..z | A..Z | _)(a..z | A..Z | _ | 0..9)*
    LocalVar { symbol: String, offset: u32 },
    /// Semicolon | ;
    Semicolon,
    /// Assign | =
    Assign,
    /// Return | return
    Return,
    /// If | if
    If,
    /// Else | else
    Else,
}

/// The mathematical value of a [`TokenKind`]: the same variants, with the
/// variable's name as a sequence of characters.
pub enum SpecKind {
    Add,
    Sub,
    Mul,
    Div,
    LRoundBracket,
    RRoundBracket,
    Equal,
    NEqual,
    Less,
    Greater,
    LessOrEqual,
    GreaterOrEqual,
    Num(u32),
    LocalVar { symbol: Seq<char>, offset: u32 },
    Semicolon,
    Assign,
    Return,
    If,
    Else,
}

/// The low 32 bits of `n`: rows, columns and lengths are kept in 32 bits.
pub open spec fn low32(n: int) -> u32 {
    (n % 0x1_0000_0000) as u32
}

/// The number of decimal digits of `x`, where zero has none.
pub open spec fn spec_digits(x: nat) -> nat
    decreases x,
{
    if x == 0 {
        0
    } else {
        1 + spec_digits(x / 10)
    }
}

impl SpecKind {
    /// A number that tells the variants apart and forgets the payloads.
    pub open spec fn tag(self) -> nat {
        match self {
            SpecKind::Add => 0,
            SpecKind::Sub => 1,
            SpecKind::Mul => 2,
            SpecKind::Div => 3,
            SpecKind::LRoundBracket => 4,
            SpecKind::RRoundBracket => 5,
            SpecKind::Equal => 6,
            SpecKind::NEqual => 7,
            SpecKind::Less => 8,
            SpecKind::Greater => 9,
            SpecKind::LessOrEqual => 10,
            SpecKind::GreaterOrEqual => 11,
            SpecKind::Num(_) => 12,
            SpecKind::LocalVar { .. } => 13,
            SpecKind::Semicolon => 14,
            SpecKind::Assign => 15,
            SpecKind::Return => 16,
            SpecKind::If => 17,
            SpecKind::Else => 18,
        }
    }

    /// Two kinds are the same when their variants are, whatever they carry.
    pub open spec fn same_kind(self, other: SpecKind) -> bool {
        self.tag() == other.tag()
    }

    /// How many columns the token takes, in 32 bits. A number counts the
    /// digits of its value, which are those of its text but for leading
    /// zeros; zero takes one.
    pub open spec fn len(self) -> u32 {
        match self {
            SpecKind::Add | SpecKind::Sub | SpecKind::Mul | SpecKind::Div => 1,
            SpecKind::LRoundBracket | SpecKind::RRoundBracket => 1,
            SpecKind::Less | SpecKind::Greater => 1,
            SpecKind::Semicolon | SpecKind::Assign => 1,
            SpecKind::Equal
            | SpecKind::NEqual
            | SpecKind::LessOrEqual
            | SpecKind::If
            | SpecKind::GreaterOrEqual => 2,
            SpecKind::Num(num) => if num == 0 {
                1
            } else {
                spec_digits(num as nat) as u32
            },
            SpecKind::LocalVar { symbol, .. } => low32(symbol.len() as int),
            SpecKind::Else => 4,
            SpecKind::Return => 6,
        }
    }

    /// The name under which a kind appears in a message.
    pub open spec fn name(self) -> Seq<char> {
        match self {
            SpecKind::Num(_) => "Number"@,
            SpecKind::Add => "Operation: +"@,
            SpecKind::Sub => "Operation: -"@,
            SpecKind::Mul => "Operation: *"@,
            SpecKind::Div => "Operation: /"@,
            SpecKind::LRoundBracket => "Operation: ("@,
            SpecKind::RRoundBracket => "Operation: )"@,
            SpecKind::Equal => "Operation: =="@,
            SpecKind::NEqual => "Operation: !="@,
            SpecKind::Less => "Operation: <"@,
            SpecKind::Greater => "Operation: >"@,
            SpecKind::LessOrEqual => "Operation: <="@,
            SpecKind::GreaterOrEqual => "Operation: >="@,
            SpecKind::LocalVar { .. } => "Variable"@,
            SpecKind::Semicolon => "Semicolon: ;"@,
            SpecKind::Assign => "Assign: ="@,
            SpecKind::If => "If"@,
            SpecKind::Return => "Return"@,
            SpecKind::Else => "Else"@,
        }
    }
}

impl View for TokenKind {
    type V = SpecKind;

    open spec fn view(&self) -> SpecKind {
        match self {
            TokenKind::Add => SpecKind::Add,
            TokenKind::Sub => SpecKind::Sub,
            TokenKind::Mul => SpecKind::Mul,
            TokenKind::Div => SpecKind::Div,
            TokenKind::LRoundBracket => SpecKind::LRoundBracket,
            TokenKind::RRoundBracket => SpecKind::RRoundBracket,
            TokenKind::Equal => SpecKind::Equal,
            TokenKind::NEqual => SpecKind::NEqual,
            TokenKind::Less => SpecKind::Less,
            TokenKind::Greater => SpecKind::Greater,
            TokenKind::LessOrEqual => SpecKind::LessOrEqual,
            TokenKind::GreaterOrEqual => SpecKind::GreaterOrEqual,
            TokenKind::Num(num) => SpecKind::Num(*num),
            TokenKind::LocalVar { symbol, offset } => SpecKind::LocalVar {
                symbol: symbol@,
                offset: *offset,
            },
            TokenKind::Semicolon => SpecKind::Semicolon,
            TokenKind::Assign => SpecKind::Assign,
            TokenKind::Return => SpecKind::Return,
            TokenKind::If => SpecKind::If,
            TokenKind::Else => SpecKind::Else,
        }
    }
}

impl DeepView for TokenKind {
    type V = SpecKind;

    open spec fn deep_view(&self) -> SpecKind {
        self@
    }
}

/// The number of decimal digits of `x`; zero has none.
pub fn digits(x: u32) -> (count: u32)
    ensures
        count == spec_digits(x as nat),
        count <= 10,
{
    let mut x: u32 = x;
    let mut count: u32 = 0;
    let ghost start: nat = x as nat;
    proof {
        lemma_digits_bound(x as nat);
    }
    while x > 0
        invariant
            count + spec_digits(x as nat) == spec_digits(start),
            spec_digits(start) <= 10,
        decreases x,
    {
        count += 1;
        x /= 10;
    }
    count
}

/// A number below 10^k has at most k digits; a `u32` has at most ten.
proof fn lemma_digits_bound(x: nat)
    requires
        x <= u32::MAX,
    ensures
        spec_digits(x) <= 10,
{
    reveal_with_fuel(spec_digits, 12);
}

/// `'0'..='9'`
pub open spec fn spec_is_digit(c: char) -> bool {
    '0' <= c && c <= '9'
}

/// A letter or an underscore: what a variable's name may start with.
pub open spec fn spec_is_var_first(c: char) -> bool {
    'a' <= c && c <= 'z' || 'A' <= c && c <= 'Z' || c == '_'
}

/// A letter, an underscore or a digit: what a variable's name is made of.
pub open spec fn spec_is_alnum(c: char) -> bool {
    spec_is_var_first(c) || spec_is_digit(c)
}

/// Whether a variable's name may start with `c`.
#[verifier::when_used_as_spec(spec_is_var_first)]
pub fn is_var_first(c: char) -> (b: bool)
    ensures
        b == spec_is_var_first(c),
{
    'a' <= c && c <= 'z' || 'A' <= c && c <= 'Z' || c == '_'
}

/// Whether `c` may stand inside a variable's name.
#[verifier::when_used_as_spec(spec_is_alnum)]
pub fn is_alnum(c: char) -> (b: bool)
    ensures
        b == spec_is_alnum(c),
{
    is_var_first(c) || '0' <= c && c <= '9'
}

impl TokenKind {
    /// The variant's number, without the payload.
    fn tag(&self) -> (t: u8)
        ensures
            t == self@.tag(),
    {
        match self {
            TokenKind::Add => 0,
            TokenKind::Sub => 1,
            TokenKind::Mul => 2,
            TokenKind::Div => 3,
            TokenKind::LRoundBracket => 4,
            TokenKind::RRoundBracket => 5,
            TokenKind::Equal => 6,
            TokenKind::NEqual => 7,
            TokenKind::Less => 8,
            TokenKind::Greater => 9,
            TokenKind::LessOrEqual => 10,
            TokenKind::GreaterOrEqual => 11,
            TokenKind::Num(_) => 12,
            TokenKind::LocalVar { .. } => 13,
            TokenKind::Semicolon => 14,
            TokenKind::Assign => 15,
            TokenKind::Return => 16,
            TokenKind::If => 17,
            TokenKind::Else => 18,
        }
    }

    /// Whether `self` and `other` are the same variant, whatever they carry.
    pub fn same_kind(&self, other: &TokenKind) -> (same: bool)
        ensures
            same == self@.same_kind(other@),
    {
        self.tag() == other.tag()
    }

    /// How many columns the token takes.
    pub fn len(&self) -> (n: u32)
        ensures
            n == self@.len(),
    {
        match self {
            TokenKind::Add | TokenKind::Sub | TokenKind::Mul | TokenKind::Div => 1,
            TokenKind::LRoundBracket | TokenKind::RRoundBracket => 1,
            TokenKind::Less | TokenKind::Greater => 1,
            TokenKind::Semicolon | TokenKind::Assign => 1,
            TokenKind::Equal
            | TokenKind::NEqual
            | TokenKind::LessOrEqual
            | TokenKind::If
            | TokenKind::GreaterOrEqual => 2,
            TokenKind::Num(num) => if *num == 0 {
                1
            } else {
                digits(*num)
            },
            TokenKind::LocalVar { symbol, .. } => {
                let chars: usize = symbol.as_str().unicode_len();
                ((chars as u64) % 0x1_0000_0000) as u32
            },
            TokenKind::Else => 4,
            TokenKind::Return => 6,
        }
    }

    /// The name under which the kind appears in a message.
    pub fn to_string(&self) -> (name: String)
        ensures
            name@ == self@.name(),
    {
        let name: &'static str = match self {
            TokenKind::Num(_) => "Number",
            TokenKind::Add => "Operation: +",
            TokenKind::Sub => "Operation: -",
            TokenKind::Mul => "Operation: *",
            TokenKind::Div => "Operation: /",
            TokenKind::LRoundBracket => "Operation: (",
            TokenKind::RRoundBracket => "Operation: )",
            TokenKind::Equal => "Operation: ==",
            TokenKind::NEqual => "Operation: !=",
            TokenKind::Less => "Operation: <",
            TokenKind::Greater => "Operation: >",
            TokenKind::LessOrEqual => "Operation: <=",
            TokenKind::GreaterOrEqual => "Operation: >=",
            TokenKind::LocalVar { .. } => "Variable",
            TokenKind::Semicolon => "Semicolon: ;",
            TokenKind::Assign => "Assign: =",
            TokenKind::If => "If",
            TokenKind::Return => "Return",
            TokenKind::Else => "Else",
        };
        String::from_str(name)
    }
}

impl Clone for TokenKind {
    fn clone(&self) -> (kind: Self)
        ensures
            kind == *self,
    {
        match self {
            TokenKind::Add => TokenKind::Add,
            TokenKind::Sub => TokenKind::Sub,
            TokenKind::Mul => TokenKind::Mul,
            TokenKind::Div => TokenKind::Div,
            TokenKind::LRoundBracket => TokenKind::LRoundBracket,
            TokenKind::RRoundBracket => TokenKind::RRoundBracket,
            TokenKind::Equal => TokenKind::Equal,
            TokenKind::NEqual => TokenKind::NEqual,
            TokenKind::Less => TokenKind::Less,
            TokenKind::Greater => TokenKind::Greater,
            TokenKind::LessOrEqual => TokenKind::LessOrEqual,
            TokenKind::GreaterOrEqual => TokenKind::GreaterOrEqual,
            TokenKind::Num(num) => TokenKind::Num(*num),
            TokenKind::LocalVar { symbol, offset } => TokenKind::LocalVar {
                symbol: symbol.clone(),
                offset: *offset,
            },
            TokenKind::Semicolon => TokenKind::Semicolon,
            TokenKind::Assign => TokenKind::Assign,
            TokenKind::Return => TokenKind::Return,
            TokenKind::If => TokenKind::If,
            TokenKind::Else => TokenKind::Else,
        }
    }
}

/// A token: a kind at a place in the source.
#[derive(Debug, PartialEq)]
pub struct Token {
    col: u32,
    row: u32,
    kind: TokenKind,
}

/// The mathematical value of a [`Token`].
pub struct SpecToken {
    pub col: u32,
    pub row: u32,
    pub kind: SpecKind,
}

impl SpecToken {
    /// The column just behind the token, in 32 bits.
    pub open spec fn end_col(self) -> u32 {
        low32(self.col + self.kind.len())
    }
}

impl View for Token {
    type V = SpecToken;

    closed spec fn view(&self) -> SpecToken {
        SpecToken { col: self.col, row: self.row, kind: self.kind@ }
    }
}

impl DeepView for Token {
    type V = SpecToken;

    open spec fn deep_view(&self) -> SpecToken {
        self@
    }
}

impl Token {
    /// The token of kind `kind` at column `col` of line `row`.
    pub fn new(col: u32, row: u32, kind: TokenKind) -> (token: Self)
        ensures
            token@ == (SpecToken { col, row, kind: kind@ }),
    {
        Self { col, row, kind }
    }

    /// The column at which the token starts.
    pub fn col(&self) -> (col: u32)
        ensures
            col == self@.col,
    {
        self.col
    }

    /// The line on which the token stands.
    pub fn row(&self) -> (row: u32)
        ensures
            row == self@.row,
    {
        self.row
    }

    /// A copy of the token's kind.
    pub fn kind(&self) -> (kind: TokenKind)
        ensures
            kind@ == self@.kind,
    {
        self.kind.clone()
    }

    /// The column just behind the token, in 32 bits.
    pub fn end_col(&self) -> (col: u32)
        ensures
            col == self@.end_col(),
    {
        let len: u32 = self.kind.len();
        ((self.col as u64 + len as u64) % 0x1_0000_0000) as u32
    }
}

impl Clone for Token {
    fn clone(&self) -> (token: Self)
        ensures
            token == *self,
    {
        Self { col: self.col, row: self.row, kind: self.kind.clone() }
    }
}

} // verus!
