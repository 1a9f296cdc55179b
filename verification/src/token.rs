//! Lexical units: token kinds and their source locations.

use vstd::prelude::*;

verus! {

/// Where a token stands in the source: its line, and the inclusive range of
/// columns from `start` to `end` that it covers.
#[derive(Debug, PartialEq, Clone, Copy)]
pub struct Location {
    pub line: usize,
    pub start: usize,
    pub end: usize,
}

/// The kinds of lexical unit.
#[derive(Debug, PartialEq)]
pub enum Type {
    /// A run of horizontal whitespace (space, tab, carriage return).
    Space,
    /// A newline.
    Return,
    /// A single `.`.
    Dot,
    /// A single `=`, or the two characters `->`.
    Equal,
    /// A `-` at column 1, marking a best-effort line.
    Ignore,
    /// A `#` or `;` at column 1, opening a comment line.
    Comment,
    /// Any other run of characters.
    Ident(String),
    /// The end of the input, as a token.
    EOF,
}

/// Ghost image of a location.
#[verifier::ext_equal]
pub struct LocV {
    pub line: int,
    pub start: int,
    pub end: int,
}

impl View for Location {
    type V = LocV;

    open spec fn view(&self) -> LocV {
        LocV { line: self.line as int, start: self.start as int, end: self.end as int }
    }
}

/// Ghost image of `Type`, with identifier text as a character sequence.
#[verifier::ext_equal]
pub enum TypeV {
    Space,
    Return,
    Dot,
    Equal,
    Ignore,
    Comment,
    Ident(Seq<char>),
    EOF,
}

/// Ghost image of a token: its kind and the place it covers.
#[verifier::ext_equal]
pub struct TokenV {
    pub line: int,
    pub start: int,
    pub end: int,
    pub ty: TypeV,
}

impl View for Type {
    type V = TypeV;

    open spec fn view(&self) -> TypeV {
        match self {
            Type::Space => TypeV::Space,
            Type::Return => TypeV::Return,
            Type::Dot => TypeV::Dot,
            Type::Equal => TypeV::Equal,
            Type::Ignore => TypeV::Ignore,
            Type::Comment => TypeV::Comment,
            Type::Ident(s) => TypeV::Ident(s@),
            Type::EOF => TypeV::EOF,
        }
    }
}

/// A classified lexical unit with its location.
#[derive(Debug, PartialEq)]
pub struct Token {
    pub loc: Location,
    pub ty: Type,
}

impl View for Token {
    type V = TokenV;

    open spec fn view(&self) -> TokenV {
        TokenV {
            line: self.loc.line as int,
            start: self.loc.start as int,
            end: self.loc.end as int,
            ty: self.ty@,
        }
    }
}

/// The place a token covers.
pub open spec fn loc_of(t: TokenV) -> LocV {
    LocV { line: t.line, start: t.start, end: t.end }
}

impl Token {
    /// A token of kind `ty` covering columns `start..=end` of `line`.
    pub fn new(line: usize, start: usize, end: usize, ty: Type) -> (r: Self)
        ensures
            r@ == (TokenV {
                line: line as int,
                start: start as int,
                end: end as int,
                ty: ty@,
            }),
    {
        Token { loc: Location { line, start, end }, ty }
    }
}

} // verus!
