//! Tokens: the classified lexemes that the lexer hands to the parser.
use vstd::prelude::*;

verus! {

/// The seven classes of lexeme.
#[allow(non_camel_case_types)]
#[derive(Debug, Clone, Copy, PartialEq, Eq, Structural)]
pub enum TokenType {
    OPERATION,
    REGISTER,
    IMM_VALUE,
    COMMA_DELIM,
    EOL,
    EOF,
    ILLEGAL,
}

/// A place in the source: the line and the column within it.
#[derive(Debug, Clone, Copy, PartialEq, Eq, Structural)]
pub struct Location {
    pub row: usize,
    pub col: usize,
}

impl Location {
    pub fn new(row: usize, col: usize) -> (r: Location)
        ensures
            r.row == row,
            r.col == col,
    {
        Location { row, col }
    }
}

/// A lexeme together with its class, its length in characters and the
/// place just after it.
#[derive(Debug)]
pub struct Token {
    pub len: usize,
    pub tok_type: TokenType,
    pub location: Location,
    pub literal: String,
}

/// What a token says, over mathematical values.
pub struct TokenView {
    pub kind: TokenType,
    pub len: nat,
    pub row: nat,
    pub col: nat,
    pub text: Seq<char>,
}

impl View for Token {
    type V = TokenView;

    open spec fn view(&self) -> TokenView {
        TokenView {
            kind: self.tok_type,
            len: self.len as nat,
            row: self.location.row as nat,
            col: self.location.col as nat,
            text: self.literal@,
        }
    }
}

impl Token {
    pub fn new(len: usize, tok_type: TokenType, location: Location, literal: String) -> (r: Token)
        ensures
            r.len == len,
            r.tok_type == tok_type,
            r.location == location,
            r.literal == literal,
    {
        Token { len, tok_type, location, literal }
    }
}

impl PartialEq for Token {
    fn eq(&self, o: &Token) -> (r: bool) {
        self.len == o.len && self.tok_type == o.tok_type && self.location == o.location
            && self.literal == o.literal
    }
}

impl vstd::std_specs::cmp::PartialEqSpecImpl for Token {
    open spec fn obeys_eq_spec() -> bool {
        true
    }

    open spec fn eq_spec(&self, o: &Token) -> bool {
        self@ == o@
    }
}

} // verus!
