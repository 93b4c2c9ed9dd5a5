//! The lexer: one line of source text in, a sequence of tokens out.
use vstd::prelude::*;

use crate::token::{Location, Token, TokenType, TokenView};

verus! {

/// The character at `i`, or the sentinel `'\0'` past either end.
pub open spec fn char_at(s: Seq<char>, i: int) -> char {
    if 0 <= i < s.len() {
        s[i]
    } else {
        '\0'
    }
}

/// An ASCII letter.
pub open spec fn is_ascii_letter(c: char) -> bool {
    ('a' <= c && c <= 'z') || ('A' <= c && c <= 'Z')
}

/// Whether a character beyond ASCII has the Unicode `Alphabetic` property.
pub uninterp spec fn alphabetic_beyond_ascii(c: char) -> bool;

/// A character of an identifier: one with the Unicode `Alphabetic`
/// property. Within ASCII these are exactly the letters.
pub open spec fn alphabetic(c: char) -> bool {
    if c <= '\x7f' {
        is_ascii_letter(c)
    } else {
        alphabetic_beyond_ascii(c)
    }
}

/// A decimal digit: the character that starts an immediate value. Only ASCII
/// digits start one, so every immediate value takes at least one character;
/// a numeric character beyond ASCII (such as `'\u{663}'`) is an illegal
/// character rather than the start of an empty immediate value, which would
/// make the lexer return empty immediate values forever.
pub open spec fn is_digit(c: char) -> bool {
    '0' <= c && c <= '9'
}

/// A hexadecimal digit of an immediate value: `0`-`9` and upper-case `A`-`F`.
pub open spec fn is_hex_digit(c: char) -> bool {
    is_digit(c) || ('A' <= c && c <= 'F')
}

/// The instruction mnemonics.
pub open spec fn is_mnemonic(t: Seq<char>) -> bool {
    ||| t == ['A', 'D', 'D']@
    ||| t == ['S', 'U', 'B']@
    ||| t == ['M', 'O', 'V']@
    ||| t == ['M', 'V', 'I']@
    ||| t == ['L', 'X', 'I']@
    ||| t == ['P', 'U', 'S', 'H']@
    ||| t == ['P', 'O', 'P']@
    ||| t == ['I', 'N', 'R']@
    ||| t == ['D', 'C', 'R']@
    ||| t == ['D', 'A', 'D']@
    ||| t == ['L', 'D', 'A', 'X']@
    ||| t == ['S', 'T', 'A', 'X']@
}

/// The register names, the pair `SP` and the pseudo-register `PSW` included.
pub open spec fn is_register_name(t: Seq<char>) -> bool {
    ||| t == ['A']@
    ||| t == ['B']@
    ||| t == ['C']@
    ||| t == ['D']@
    ||| t == ['E']@
    ||| t == ['P', 'S', 'W']@
    ||| t == ['H']@
    ||| t == ['L']@
    ||| t == ['S', 'P']@
}

/// The class of a word of alphabetic characters.
pub open spec fn kind_of_word(t: Seq<char>) -> TokenType {
    if is_mnemonic(t) {
        TokenType::OPERATION
    } else if is_register_name(t) {
        TokenType::REGISTER
    } else {
        TokenType::ILLEGAL
    }
}

/// The end of the longest run of alphabetic characters that starts at `i`.
pub open spec fn word_end(s: Seq<char>, i: int) -> int
    decreases s.len() - i,
{
    if 0 <= i < s.len() && alphabetic(s[i]) {
        word_end(s, i + 1)
    } else {
        i
    }
}

/// The end of the longest run of hexadecimal digits that starts at `i`.
pub open spec fn hex_end(s: Seq<char>, i: int) -> int
    decreases s.len() - i,
{
    if 0 <= i < s.len() && is_hex_digit(s[i]) {
        hex_end(s, i + 1)
    } else {
        i
    }
}

/// The end of an immediate value that starts at `i`: hexadecimal digits and
/// an optional `H` suffix.
pub open spec fn imm_end(s: Seq<char>, i: int) -> int {
    let e = hex_end(s, i);
    if char_at(s, e) == 'H' {
        e + 1
    } else {
        e
    }
}

/// Where the lexer stands: the index of the current character, and the
/// line and column that the next token will be reported against.
pub struct Cursor {
    pub pos: int,
    pub row: int,
    pub col: int,
}

/// The characters `s[i..e]`; none where that range is not within `s`.
pub open spec fn text_between(s: Seq<char>, i: int, e: int) -> Seq<char> {
    if 0 <= i <= e <= s.len() {
        s.subrange(i, e)
    } else {
        Seq::empty()
    }
}

/// The token for the lexeme `s[c.pos..e]`, and the cursor after it.
pub open spec fn lexeme(s: Seq<char>, c: Cursor, e: int, kind: TokenType) -> (Option<TokenView>, Cursor) {
    let n = e - c.pos;
    (
        Some(TokenView { kind, len: n as nat, row: c.row as nat, col: (c.col + n) as nat, text: text_between(s, c.pos, e) }),
        Cursor { pos: e, row: c.row, col: c.col + n },
    )
}

/// The next token of `s` from `c`, and the cursor after it; `None` at the
/// sentinel.
pub open spec fn scan(s: Seq<char>, c: Cursor) -> (Option<TokenView>, Cursor)
    decreases s.len() - c.pos,
{
    let ch = char_at(s, c.pos);
    if 0 <= c.pos < s.len() && s[c.pos] == ' ' {
        scan(s, Cursor { pos: c.pos + 1, row: c.row, col: c.col + 1 })
    } else if alphabetic(ch) {
        let e = word_end(s, c.pos);
        lexeme(s, c, e, kind_of_word(text_between(s, c.pos, e)))
    } else if is_digit(ch) {
        lexeme(s, c, imm_end(s, c.pos), TokenType::IMM_VALUE)
    } else if ch == ',' {
        lexeme(s, c, c.pos + 1, TokenType::COMMA_DELIM)
    } else if ch == '\n' {
        (
            Some(TokenView { kind: TokenType::EOL, len: 1, row: c.row as nat, col: (c.col + 1) as nat, text: seq!['\n'] }),
            Cursor { pos: c.pos + 1, row: c.row + 1, col: 0 },
        )
    } else if ch == '\0' {
        (None, c)
    } else {
        (
            Some(TokenView { kind: TokenType::ILLEGAL, len: 1, row: c.row as nat, col: (c.col + 1) as nat, text: seq!['\0'] }),
            Cursor { pos: c.pos + 1, row: c.row, col: c.col + 1 },
        )
    }
}

/// All the tokens of `s` from `c` on, up to the sentinel.
pub open spec fn lex(s: Seq<char>, c: Cursor) -> Seq<TokenView>
    decreases s.len() - c.pos,
{
    let (t, next) = scan(s, c);
    if t is Some && c.pos < next.pos <= s.len() {
        seq![t->Some_0] + lex(s, next)
    } else {
        seq![]
    }
}

/// The cursor of a fresh lexer on line `line_no`.
pub open spec fn start(line_no: int) -> Cursor {
    Cursor { pos: 0, row: line_no, col: 0 }
}

/// The tokens of a whole line.
pub open spec fn lex_line(s: Seq<char>, line_no: int) -> Seq<TokenView> {
    lex(s, start(line_no))
}

pub open spec fn views(ts: Seq<Token>) -> Seq<TokenView> {
    ts.map_values(|t: Token| t@)
}

pub open spec fn view_of(t: Option<Token>) -> Option<TokenView> {
    match t {
        Some(t) => Some(t@),
        None => None,
    }
}

proof fn lemma_word_end(s: Seq<char>, i: int, p: int)
    requires
        0 <= i,
    ensures
        i <= word_end(s, i),
        i <= s.len() ==> word_end(s, i) <= s.len(),
        i <= p <= word_end(s, i) ==> word_end(s, p) == word_end(s, i),
    decreases s.len() - i,
{
    if i < s.len() && alphabetic(s[i]) {
        lemma_word_end(s, i + 1, p);
    }
}

proof fn lemma_hex_end(s: Seq<char>, i: int, p: int)
    requires
        0 <= i,
    ensures
        i <= hex_end(s, i),
        i <= s.len() ==> hex_end(s, i) <= s.len(),
        i <= p <= hex_end(s, i) ==> hex_end(s, p) == hex_end(s, i),
    decreases s.len() - i,
{
    if i < s.len() && is_hex_digit(s[i]) {
        lemma_hex_end(s, i + 1, p);
    }
}

/// Every token that `scan` yields moves the cursor forward, within the text.
proof fn lemma_scan_progress(s: Seq<char>, c: Cursor)
    requires
        0 <= c.pos,
    ensures
        scan(s, c).0 is Some ==> c.pos < scan(s, c).1.pos <= s.len(),
    decreases s.len() - c.pos,
{
    let ch = char_at(s, c.pos);
    if 0 <= c.pos < s.len() && s[c.pos] == ' ' {
        lemma_scan_progress(s, Cursor { pos: c.pos + 1, row: c.row, col: c.col + 1 });
    } else if alphabetic(ch) {
        lemma_word_end(s, c.pos + 1, c.pos + 1);
    } else if is_digit(ch) {
        lemma_hex_end(s, c.pos + 1, c.pos + 1);
    }
}

/// Relies on `FromIterator<char> for String`: the string holds the
/// characters in order.
#[verifier::external_body]
fn string_from_chars(cs: Vec<char>) -> (r: String)
    ensures
        r@ == cs@,
{
    cs.into_iter().collect()
}

/// Whether `s` spells the word `w`.
fn spells(s: &str, w: &[char]) -> (r: bool)
    ensures
        r == (s@ == w@),
{
    let n = s.unicode_len();
    if n != w.len() {
        return false;
    }
    let mut i: usize = 0;
    while i < n
        invariant
            n == s@.len(),
            n == w@.len(),
            i <= n,
            forall|j: int| 0 <= j < i ==> s@[j] == w@[j],
        decreases n - i,
    {
        if s.get_char(i) != w[i] {
            return false;
        }
        i = i + 1;
    }
    assert(s@ =~= w@);
    true
}

/// The class of an identifier: an operation, a register, or illegal.
pub fn get_identifier_token(identifier_lit: &str) -> (r: TokenType)
    ensures
        r == kind_of_word(identifier_lit@),
{
    let t = identifier_lit;
    if spells(t, &['A', 'D', 'D']) || spells(t, &['S', 'U', 'B']) || spells(t, &['M', 'O', 'V'])
        || spells(t, &['M', 'V', 'I']) || spells(t, &['L', 'X', 'I']) || spells(t, &['P', 'U', 'S', 'H'])
        || spells(t, &['P', 'O', 'P']) || spells(t, &['I', 'N', 'R']) || spells(t, &['D', 'C', 'R'])
        || spells(t, &['D', 'A', 'D']) || spells(t, &['L', 'D', 'A', 'X']) || spells(t, &['S', 'T', 'A', 'X']) {
        TokenType::OPERATION
    } else if spells(t, &['A']) || spells(t, &['B']) || spells(t, &['C']) || spells(t, &['D'])
        || spells(t, &['E']) || spells(t, &['P', 'S', 'W']) || spells(t, &['H']) || spells(t, &['L'])
        || spells(t, &['S', 'P']) {
        TokenType::REGISTER
    } else {
        TokenType::ILLEGAL
    }
}

/// A lexer over one line of text. It holds the line's characters and a
/// cursor: the current character `ch` at `curr_position`, and `location`,
/// the place that the next token will be reported against.
#[derive(Debug)]
pub struct Lexer {
    pub chars: Vec<char>,
    pub ch: char,
    pub curr_position: usize,
    pub read_position: usize,
    pub location: Location,
}

impl Lexer {
    /// The characters of the line.
    pub open spec fn source(&self) -> Seq<char> {
        self.chars@
    }

    pub open spec fn cursor(&self) -> Cursor {
        Cursor {
            pos: self.curr_position as int,
            row: self.location.row as int,
            col: self.location.col as int,
        }
    }

    /// `ch` is the character under the cursor (`'\0'` at or past the end of
    /// the line), and the row counter cannot overflow on what is left.
    pub open spec fn wf(&self) -> bool {
        &&& self.source().len() < usize::MAX
        &&& self.read_position == self.curr_position + 1
        &&& self.ch == char_at(self.source(), self.curr_position as int)
        &&& self.location.col <= self.curr_position
        &&& self.location.row + (self.source().len() - self.curr_position) <= usize::MAX
    }

    /// A lexer at the start of `source`, which is line `line_no`.
    pub fn new(source: String, line_no: usize) -> (r: Lexer)
        requires
            source@.len() > 0,
            line_no + source@.len() < usize::MAX,
        ensures
            r.wf(),
            r.source() == source@,
            r.cursor() == start(line_no as int),
    {
        let s = source.as_str();
        let n = s.unicode_len();
        let mut chars: Vec<char> = Vec::new();
        let mut i: usize = 0;
        while i < n
            invariant
                n == s@.len(),
                i <= n,
                chars@ == s@.subrange(0, i as int),
            decreases n - i,
        {
            chars.push(s.get_char(i));
            i = i + 1;
        }
        assert(chars@ =~= s@);
        let ch = chars[0];
        Lexer { chars, ch, curr_position: 0, read_position: 1, location: Location { row: line_no, col: 0 } }
    }

    /// Moves past the current character. At or past the end of the line the
    /// current character stays `'\0'` and the counters move on.
    pub fn consume(&mut self)
        requires
            old(self).wf(),
            old(self).read_position < usize::MAX,
        ensures
            final(self).wf(),
            final(self).source() == old(self).source(),
            final(self).curr_position == old(self).curr_position + 1,
            final(self).location.row == old(self).location.row,
            final(self).location.col == old(self).location.col + 1,
    {
        if self.read_position >= self.chars.len() {
            self.ch = '\0';
        } else {
            self.ch = self.chars[self.read_position];
        }
        self.curr_position = self.read_position;
        self.read_position = self.curr_position + 1;
        self.location.col = self.location.col + 1;
    }

    /// Reads the longest run of alphabetic characters under the cursor as an identifier,
    /// classified by `get_identifier_token`.
    pub fn read_identifier(&mut self) -> (r: Token)
        requires
            old(self).wf(),
        ensures
            final(self).wf(),
            final(self).source() == old(self).source(),
            lexeme(
                old(self).source(),
                old(self).cursor(),
                word_end(old(self).source(), old(self).curr_position as int),
                kind_of_word(
                    text_between(
                        old(self).source(),
                        old(self).curr_position as int,
                        word_end(old(self).source(), old(self).curr_position as int),
                    ),
                ),
            ) == (Some(r@), final(self).cursor()),
    {
        let ghost s = self.source();
        let ghost p0 = self.curr_position as int;
        proof {
            lemma_word_end(s, p0, p0);
        }
        let mut buf: Vec<char> = Vec::new();
        assert(buf@ =~= text_between(s, p0, p0));
        while is_alphabetic_char(self.ch)
            invariant
                self.wf(),
                self.source() == s,
                p0 <= self.curr_position <= word_end(s, p0),
                word_end(s, self.curr_position as int) == word_end(s, p0),
                self.location.row == old(self).location.row,
                self.location.col == old(self).location.col + (self.curr_position - p0),
                buf@ == text_between(s, p0, self.curr_position as int),
            decreases s.len() - self.curr_position,
        {
            proof {
                lemma_word_end(s, self.curr_position + 1, self.curr_position + 1);
            }
            buf.push(self.ch);
            self.consume();
            assert(buf@ =~= text_between(s, p0, self.curr_position as int));
        }
        let len = buf.len();
        let literal = string_from_chars(buf);
        let kind = get_identifier_token(literal.as_str());
        Token::new(len, kind, self.location, literal)
    }

    /// Reads an immediate value under the cursor: the longest run of
    /// hexadecimal digits, and an `H` suffix if one follows.
    pub fn read_immediate(&mut self) -> (r: Token)
        requires
            old(self).wf(),
        ensures
            final(self).wf(),
            final(self).source() == old(self).source(),
            lexeme(
                old(self).source(),
                old(self).cursor(),
                imm_end(old(self).source(), old(self).curr_position as int),
                TokenType::IMM_VALUE,
            ) == (Some(r@), final(self).cursor()),
    {
        let ghost s = self.source();
        let ghost p0 = self.curr_position as int;
        proof {
            lemma_hex_end(s, p0, p0);
        }
        let mut buf: Vec<char> = Vec::new();
        assert(buf@ =~= text_between(s, p0, p0));
        while is_hex_digit_char(self.ch)
            invariant
                self.wf(),
                self.source() == s,
                p0 <= self.curr_position <= hex_end(s, p0),
                hex_end(s, self.curr_position as int) == hex_end(s, p0),
                self.location.row == old(self).location.row,
                self.location.col == old(self).location.col + (self.curr_position - p0),
                buf@ == text_between(s, p0, self.curr_position as int),
            decreases s.len() - self.curr_position,
        {
            proof {
                lemma_hex_end(s, self.curr_position + 1, self.curr_position + 1);
            }
            buf.push(self.ch);
            self.consume();
            assert(buf@ =~= text_between(s, p0, self.curr_position as int));
        }
        assert(self.curr_position == hex_end(s, p0));
        if self.ch == 'H' {
            buf.push(self.ch);
            self.consume();
            assert(buf@ =~= text_between(s, p0, self.curr_position as int));
        }
        let len = buf.len();
        let literal = string_from_chars(buf);
        Token::new(len, TokenType::IMM_VALUE, self.location, literal)
    }
}

/// Relies on `char::is_alphabetic`: within ASCII it holds of the letters
/// alone; beyond ASCII it is the Unicode `Alphabetic` property of `c`.
#[verifier::external_body]
fn is_alphabetic_char(c: char) -> (r: bool)
    ensures
        r == alphabetic(c),
        c > '\x7f' ==> r == alphabetic_beyond_ascii(c),
{
    c.is_alphabetic()
}

fn is_digit_char(c: char) -> (r: bool)
    ensures
        r == is_digit(c),
{
    '0' <= c && c <= '9'
}

fn is_hex_digit_char(c: char) -> (r: bool)
    ensures
        r == is_hex_digit(c),
{
    is_digit_char(c) || ('A' <= c && c <= 'F')
}

impl Lexer {
    /// The next token of the line, or `None` at its end. Spaces are
    /// skipped; a character that starts no token gives an `ILLEGAL` token
    /// whose literal is `'\0'`.
    pub fn next(&mut self) -> (r: Option<Token>)
        requires
            old(self).wf(),
        ensures
            final(self).wf(),
            final(self).source() == old(self).source(),
            scan(old(self).source(), old(self).cursor()) == (view_of(r), final(self).cursor()),
    {
        let ghost s = self.source();
        while self.ch == ' '
            invariant
                self.wf(),
                self.source() == s,
                scan(s, self.cursor()) == scan(s, old(self).cursor()),
            decreases s.len() - self.curr_position,
        {
            self.consume();
        }
        if is_alphabetic_char(self.ch) {
            Some(self.read_identifier())
        } else if is_digit_char(self.ch) {
            Some(self.read_immediate())
        } else if self.ch == ',' {
            self.consume();
            assert(s.subrange(self.curr_position - 1, self.curr_position as int) =~= seq![',']);
            Some(Token::new(1, TokenType::COMMA_DELIM, self.location, string_of_char(',')))
        } else if self.ch == '\n' {
            self.consume();
            let token = Token::new(1, TokenType::EOL, self.location, string_of_char('\n'));
            self.location.col = 0;
            self.location.row = self.location.row + 1;
            Some(token)
        } else if self.ch == '\0' {
            None
        } else {
            self.consume();
            Some(Token::new(1, TokenType::ILLEGAL, self.location, string_of_char('\0')))
        }
    }

    /// All the tokens from the cursor to the end of the line.
    pub fn tokens(self) -> (r: Vec<Token>)
        requires
            self.wf(),
        ensures
            views(r@) == lex(self.source(), self.cursor()),
    {
        let ghost s = self.source();
        let ghost c0 = self.cursor();
        let mut lexer = self;
        let mut out: Vec<Token> = Vec::new();
        loop
            invariant
                lexer.wf(),
                lexer.source() == s,
                self.source() == s,
                self.cursor() == c0,
                views(out@) + lex(s, lexer.cursor()) == lex(s, c0),
            decreases s.len() - lexer.curr_position,
        {
            let ghost c = lexer.cursor();
            proof {
                lemma_scan_progress(s, c);
            }
            match lexer.next() {
                None => {
                    assert(lex(s, c) =~= Seq::<TokenView>::empty());
                    assert(views(out@) + lex(s, c) =~= views(out@));
                    return out;
                }
                Some(t) => {
                    let ghost before = views(out@);
                    out.push(t);
                    assert(views(out@) =~= before.push(t@));
                    assert(lex(s, c) == seq![t@] + lex(s, lexer.cursor()));
                    assert(views(out@) + lex(s, lexer.cursor()) =~= before + lex(s, c));
                }
            }
        }
    }
}

/// The string of the one character `c`.
fn string_of_char(c: char) -> (r: String)
    ensures
        r@ == seq![c],
{
    let mut v: Vec<char> = Vec::new();
    v.push(c);
    assert(v@ =~= seq![c]);
    string_from_chars(v)
}

/// The tokens of `source`, which is line `line_no`.
pub fn lex_source(source: String, line_no: usize) -> (r: Vec<Token>)
    requires
        source@.len() > 0,
        line_no + source@.len() < usize::MAX,
    ensures
        views(r@) == lex_line(source@, line_no as int),
{
    Lexer::new(source, line_no).tokens()
}

proof fn lemma_word_run(s: Seq<char>, i: int, j: int)
    requires
        0 <= i <= j <= s.len(),
        forall|k: int| i <= k < j ==> alphabetic(#[trigger] s[k]),
        !alphabetic(char_at(s, j)),
    ensures
        word_end(s, i) == j,
    decreases j - i,
{
    if i < j {
        lemma_word_run(s, i + 1, j);
    }
}

proof fn lemma_hex_run(s: Seq<char>, i: int, j: int)
    requires
        0 <= i <= j <= s.len(),
        forall|k: int| i <= k < j ==> is_hex_digit(#[trigger] s[k]),
        !is_hex_digit(char_at(s, j)),
    ensures
        hex_end(s, i) == j,
    decreases j - i,
{
    if i < j {
        lemma_hex_run(s, i + 1, j);
    }
}

/// Mnemonics and register names are non-empty words of letters, and no
/// name is in both sets.
proof fn lemma_keyword(t: Seq<char>)
    requires
        is_mnemonic(t) || is_register_name(t),
    ensures
        0 < t.len() <= 4,
        forall|k: int| 0 <= k < t.len() ==> alphabetic(#[trigger] t[k]),
        is_mnemonic(t) ==> kind_of_word(t) == TokenType::OPERATION,
        is_register_name(t) ==> kind_of_word(t) == TokenType::REGISTER,
{
    if is_mnemonic(t) {
        assert(t.len() >= 3);
    } else {
        assert(!is_mnemonic(t)) by {
            assert(t.len() <= 3);
            if t.len() == 3 {
                assert(t == ['P', 'S', 'W']@);
                assert(t[0] == 'P' && t[1] == 'S' && t[2] == 'W');
            }
        }
    }
}

/// A line `OP REG,IMMH` and a line end, where `IMM` is hexadecimal digits
/// led by a decimal one, lexes into an operation, a register, a comma, an
/// immediate value and a line end, in that order. Each token holds its
/// lexeme, its length in characters, and the column just after it.
pub proof fn lex_operation_register_immediate(
    op: Seq<char>,
    reg: Seq<char>,
    imm: Seq<char>,
    line_no: nat,
)
    requires
        is_mnemonic(op),
        is_register_name(reg),
        imm.len() > 0,
        is_digit(imm[0]),
        forall|k: int| 0 <= k < imm.len() ==> is_hex_digit(#[trigger] imm[k]),
    ensures
        ({
            let a = op.len();
            let b = a + 1 + reg.len();
            let c = b + 1 + imm.len();
            lex_line(op + seq![' '] + reg + seq![','] + imm + seq!['H', '\n'], line_no as int)
                == seq![
                TokenView { kind: TokenType::OPERATION, len: a, row: line_no, col: a, text: op },
                TokenView { kind: TokenType::REGISTER, len: reg.len(), row: line_no, col: b, text: reg },
                TokenView { kind: TokenType::COMMA_DELIM, len: 1, row: line_no, col: (b + 1) as nat, text: seq![','] },
                TokenView { kind: TokenType::IMM_VALUE, len: imm.len() + 1, row: line_no, col: (c + 1) as nat, text: imm + seq!['H'] },
                TokenView { kind: TokenType::EOL, len: 1, row: line_no, col: (c + 2) as nat, text: seq!['\n'] },
            ]
        }),
{
    let s = op + seq![' '] + reg + seq![','] + imm + seq!['H', '\n'];
    let n = line_no as int;
    let a = op.len() as int;
    let b = a + 1 + reg.len();
    let c = b + 1 + imm.len();
    lemma_immediate_line(op, reg, imm);
    let c0 = start(n);
    let c1 = Cursor { pos: a, row: n, col: a };
    let c2 = Cursor { pos: b, row: n, col: b };
    let c3 = Cursor { pos: b + 1, row: n, col: b + 1 };
    let c4 = Cursor { pos: c + 1, row: n, col: c + 1 };
    let c5 = Cursor { pos: c + 2, row: n + 1, col: 0 };
    assert(scan(s, c0) == lexeme(s, c0, a, TokenType::OPERATION));
    let c1s = Cursor { pos: a + 1, row: n, col: a + 1 };
    assert(scan(s, c1) == scan(s, c1s));
    assert(scan(s, c1s) == lexeme(s, c1s, b, TokenType::REGISTER));
    assert(scan(s, c2) == lexeme(s, c2, b + 1, TokenType::COMMA_DELIM));
    assert(scan(s, c3) == lexeme(s, c3, c + 1, TokenType::IMM_VALUE));
    assert(scan(s, c4).1 == c5);
    assert(lex(s, c5) == Seq::<TokenView>::empty());
    assert(lex(s, c4) =~= seq![scan(s, c4).0->Some_0]);
    assert(lex(s, c3) =~= seq![scan(s, c3).0->Some_0] + lex(s, c4));
    assert(lex(s, c2) =~= seq![scan(s, c2).0->Some_0] + lex(s, c3));
    assert(lex(s, c1) =~= seq![scan(s, c1).0->Some_0] + lex(s, c2));
    assert(lex(s, c0) =~= seq![scan(s, c0).0->Some_0] + lex(s, c1));
}

/// Where the lexemes of a line `OP REG,IMMH` and a line end lie.
proof fn lemma_immediate_line(op: Seq<char>, reg: Seq<char>, imm: Seq<char>)
    requires
        is_mnemonic(op),
        is_register_name(reg),
        imm.len() > 0,
        is_digit(imm[0]),
        forall|k: int| 0 <= k < imm.len() ==> is_hex_digit(#[trigger] imm[k]),
    ensures
        ({
            let s = op + seq![' '] + reg + seq![','] + imm + seq!['H', '\n'];
            let a = op.len() as int;
            let b = a + 1 + reg.len();
            let c = b + 1 + imm.len();
            &&& s.len() == c + 2
            &&& s[0] != ' ' && alphabetic(s[0])
            &&& word_end(s, 0) == a && text_between(s, 0, a) == op
            &&& kind_of_word(op) == TokenType::OPERATION
            &&& s[a] == ' '
            &&& s[a + 1] != ' ' && alphabetic(s[a + 1])
            &&& word_end(s, a + 1) == b && text_between(s, a + 1, b) == reg
            &&& kind_of_word(reg) == TokenType::REGISTER
            &&& s[b] == ',' && text_between(s, b, b + 1) == seq![',']
            &&& s[b + 1] != ' ' && !alphabetic(s[b + 1]) && is_digit(s[b + 1])
            &&& imm_end(s, b + 1) == c + 1 && text_between(s, b + 1, c + 1) == imm + seq!['H']
            &&& s[c + 1] == '\n'
        }),
{
    let s = op + seq![' '] + reg + seq![','] + imm + seq!['H', '\n'];
    let a = op.len() as int;
    let b = a + 1 + reg.len();
    let c = b + 1 + imm.len();
    assert(!alphabetic(' ') && !alphabetic(',') && !alphabetic('\n'));
    assert(!is_hex_digit('H'));
    lemma_keyword(op);
    lemma_keyword(reg);
    assert(s.len() == c + 2);
    assert(forall|k: int| 0 <= k < a ==> s[k] == op[k]);
    assert(s[a] == ' ');
    assert(forall|k: int| a < k < b ==> s[k] == reg[k - a - 1]);
    assert(s[b] == ',');
    assert(forall|k: int| b < k < c ==> s[k] == imm[k - b - 1]);
    assert(s[c] == 'H');
    assert(s[c + 1] == '\n');
    lemma_word_run(s, 0, a);
    lemma_word_run(s, a + 1, b);
    assert(s[b + 1] == imm[0]);
    assert(forall|k: int| b + 1 <= k < c ==> is_hex_digit(#[trigger] s[k]));
    lemma_hex_run(s, b + 1, c);
    assert(s.subrange(0, a) =~= op);
    assert(s.subrange(a + 1, b) =~= reg);
    assert(s.subrange(b, b + 1) =~= seq![',']);
    assert(s.subrange(b + 1, c + 1) =~= imm + seq!['H']);
}

/// A line `OP REG1,REG2` and a line end lexes into an operation, a
/// register, a comma, a register and a line end, in that order. Each token
/// holds its lexeme, its length in characters, and the column just after it.
pub proof fn lex_operation_register_register(
    op: Seq<char>,
    reg1: Seq<char>,
    reg2: Seq<char>,
    line_no: nat,
)
    requires
        is_mnemonic(op),
        is_register_name(reg1),
        is_register_name(reg2),
    ensures
        ({
            let a = op.len();
            let b = a + 1 + reg1.len();
            let c = b + 1 + reg2.len();
            lex_line(op + seq![' '] + reg1 + seq![','] + reg2 + seq!['\n'], line_no as int)
                == seq![
                TokenView { kind: TokenType::OPERATION, len: a, row: line_no, col: a, text: op },
                TokenView { kind: TokenType::REGISTER, len: reg1.len(), row: line_no, col: b, text: reg1 },
                TokenView { kind: TokenType::COMMA_DELIM, len: 1, row: line_no, col: (b + 1) as nat, text: seq![','] },
                TokenView { kind: TokenType::REGISTER, len: reg2.len(), row: line_no, col: c, text: reg2 },
                TokenView { kind: TokenType::EOL, len: 1, row: line_no, col: (c + 1) as nat, text: seq!['\n'] },
            ]
        }),
{
    let s = op + seq![' '] + reg1 + seq![','] + reg2 + seq!['\n'];
    let n = line_no as int;
    let a = op.len() as int;
    let b = a + 1 + reg1.len();
    let c = b + 1 + reg2.len();
    assert(!alphabetic(' ') && !alphabetic(',') && !alphabetic('\n') && !alphabetic('\0'));
    assert(!is_hex_digit('H') && !alphabetic('0'));
    lemma_keyword(op);
    lemma_keyword(reg1);
    lemma_keyword(reg2);
    assert(s.len() == c + 1);
    assert(forall|k: int| 0 <= k < a ==> s[k] == op[k]);
    assert(s[a] == ' ');
    assert(forall|k: int| a < k < b ==> s[k] == reg1[k - a - 1]);
    assert(s[b] == ',');
    assert(forall|k: int| b < k < c ==> s[k] == reg2[k - b - 1]);
    assert(s[c] == '\n');
    lemma_word_run(s, 0, a);
    lemma_word_run(s, a + 1, b);
    lemma_word_run(s, b + 1, c);
    assert(s.subrange(0, a) =~= op);
    assert(s.subrange(a + 1, b) =~= reg1);
    assert(s.subrange(b, b + 1) =~= seq![',']);
    assert(s.subrange(b + 1, c) =~= reg2);
    let c0 = start(n);
    let c1 = Cursor { pos: a, row: n, col: a };
    let c2 = Cursor { pos: b, row: n, col: b };
    let c3 = Cursor { pos: b + 1, row: n, col: b + 1 };
    let c4 = Cursor { pos: c, row: n, col: c };
    let c5 = Cursor { pos: c + 1, row: n + 1, col: 0 };
    assert(scan(s, Cursor { pos: a + 1, row: n, col: a + 1 }).1 == c2);
    assert(lex(s, c5) == Seq::<TokenView>::empty());
    assert(lex(s, c4) =~= seq![scan(s, c4).0->Some_0]);
    assert(lex(s, c3) =~= seq![scan(s, c3).0->Some_0] + lex(s, c4));
    assert(lex(s, c2) =~= seq![scan(s, c2).0->Some_0] + lex(s, c3));
    assert(lex(s, c1) =~= seq![scan(s, c1).0->Some_0] + lex(s, c2));
    assert(lex(s, c0) =~= seq![scan(s, c0).0->Some_0] + lex(s, c1));
}

/// Two lexers made on the same line, with the same line number, yield the
/// same tokens: the tokens that `tokens` returns for each are equal.
pub proof fn lexing_is_deterministic(
    source: Seq<char>,
    line_no: nat,
    first: Seq<Token>,
    second: Seq<Token>,
)
    requires
        views(first) == lex_line(source, line_no as int),
        views(second) == lex_line(source, line_no as int),
    ensures
        views(first) == views(second),
        first.len() == second.len(),
        forall|k: int| 0 <= k < first.len() ==> (#[trigger] first[k])@ == second[k]@,
{
    assert(views(first).len() == first.len());
    assert(views(second).len() == second.len());
    assert forall|k: int| 0 <= k < first.len() implies (#[trigger] first[k])@ == second[k]@ by {
        assert(views(first)[k] == first[k]@);
        assert(views(second)[k] == second[k]@);
    }
}

/// A line of `k` spaces and a line end.
pub open spec fn blank_line(k: nat) -> Seq<char> {
    Seq::new(k, |i: int| ' ') + seq!['\n']
}

proof fn lemma_scan_blank(k: nat, n: int, i: int)
    requires
        0 <= i <= k,
    ensures
        scan(blank_line(k), Cursor { pos: i, row: n, col: i }) == (
            Some(TokenView { kind: TokenType::EOL, len: 1, row: n as nat, col: k + 1, text: seq!['\n'] }),
            Cursor { pos: (k + 1) as int, row: n + 1, col: 0 },
        ),
    decreases k - i,
{
    let s = blank_line(k);
    assert(s.len() == k + 1);
    assert(s[k as int] == '\n');
    if i < k {
        assert(s[i] == ' ');
        lemma_scan_blank(k, n, i + 1);
    }
}

/// A line of spaces and a line end lexes into a single line end.
pub proof fn lex_blank_line(k: nat, line_no: nat)
    ensures
        lex_line(blank_line(k), line_no as int) == seq![
            TokenView { kind: TokenType::EOL, len: 1, row: line_no, col: k + 1, text: seq!['\n'] },
        ],
{
    let s = blank_line(k);
    let n = line_no as int;
    lemma_scan_blank(k, n, 0);
    assert(s.len() == k + 1);
    let c1 = Cursor { pos: (k + 1) as int, row: n + 1, col: 0 };
    assert(lex(s, c1) == Seq::<TokenView>::empty());
    assert(lex(s, start(n)) =~= seq![scan(s, start(n)).0->Some_0] + lex(s, c1));
}

/// A word of letters that is neither a mnemonic nor a register name, and a
/// line end, lexes into an illegal token that holds the word, and a line end.
pub proof fn lex_unknown_word(w: Seq<char>, line_no: nat)
    requires
        w.len() > 0,
        forall|k: int| 0 <= k < w.len() ==> alphabetic(#[trigger] w[k]),
        !is_mnemonic(w),
        !is_register_name(w),
    ensures
        lex_line(w + seq!['\n'], line_no as int) == seq![
            TokenView { kind: TokenType::ILLEGAL, len: w.len(), row: line_no, col: w.len(), text: w },
            TokenView { kind: TokenType::EOL, len: 1, row: line_no, col: w.len() + 1, text: seq!['\n'] },
        ],
{
    let s = w + seq!['\n'];
    let n = line_no as int;
    let a = w.len() as int;
    assert(forall|k: int| 0 <= k < a ==> s[k] == w[k]);
    assert(s[a] == '\n');
    lemma_word_run(s, 0, a);
    assert(s.subrange(0, a) =~= w);
    let c1 = Cursor { pos: a, row: n, col: a };
    let c2 = Cursor { pos: a + 1, row: n + 1, col: 0 };
    assert(lex(s, c2) == Seq::<TokenView>::empty());
    assert(lex(s, c1) =~= seq![scan(s, c1).0->Some_0]);
    assert(lex(s, start(n)) =~= seq![scan(s, start(n)).0->Some_0] + lex(s, c1));
}

} // verus!
