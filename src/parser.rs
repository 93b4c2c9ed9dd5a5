//! The parser: a token sequence in, the tree of one instruction out.
use vstd::prelude::*;

use crate::lexer::{blank_line, is_digit, is_hex_digit, alphabetic, lex_operation_register_immediate, is_mnemonic, is_register_name, lex_blank_line, lex_line, lex_unknown_word, views};
use crate::token::{Location, Token, TokenType};

verus! {

/// The tokens that are left to parse, front first.
#[derive(Debug)]
pub struct Parser {
    pub tok_stream: Vec<Token>,
}

impl Parser {
    pub fn new(tok_stream: Vec<Token>) -> (r: Parser)
        ensures
            r.tok_stream@ == tok_stream@,
    {
        Parser { tok_stream }
    }
}

/// The two operand slots under an operation.
#[derive(Debug, PartialEq)]
pub struct Tree {
    pub l_child: Option<Node>,
    pub r_child: Option<Node>,
}

impl Tree {
    pub fn default() -> (r: Tree)
        ensures
            r.l_child is None,
            r.r_child is None,
    {
        Tree { l_child: None, r_child: None }
    }

    pub fn new(l_child: Option<Node>, r_child: Option<Node>) -> (r: Tree)
        ensures
            r.l_child == l_child,
            r.r_child == r_child,
    {
        Tree { l_child, r_child }
    }
}

/// A token of the instruction, with the slots below it.
#[derive(Debug, PartialEq)]
pub struct Node {
    pub value: Token,
    pub branch: Box<Tree>,
}

impl Node {
    pub fn new(tok_val: Token, branch: Box<Tree>) -> (r: Node)
        ensures
            r.value == tok_val,
            r.branch == branch,
    {
        Node { value: tok_val, branch }
    }
}

/// What a statement turned out to be.
#[derive(Debug)]
pub enum Statement {
    /// An operation with its operands.
    Instruction(Node),
    /// Nothing but skipped tokens, up to the end of the input.
    Empty,
    /// A register where an operation was due; the place is the register's.
    MisplacedOperand(Location),
}

/// `n` is a leaf that holds `t`.
pub open spec fn is_leaf(n: Node, t: Token) -> bool {
    n.value == t && n.branch.l_child is None && n.branch.r_child is None
}

/// The operand at the front of `ts`, past any commas, and the number of
/// tokens that it takes.
pub open spec fn operand_at(ts: Seq<Token>) -> (Option<Token>, nat)
    decreases ts.len(),
{
    if ts.len() == 0 {
        (None, 0)
    } else if ts[0].tok_type == TokenType::REGISTER || ts[0].tok_type == TokenType::IMM_VALUE {
        (Some(ts[0]), 1)
    } else if ts[0].tok_type == TokenType::COMMA_DELIM {
        (operand_at(ts.drop_first()).0, operand_at(ts.drop_first()).1 + 1)
    } else {
        (None, 0)
    }
}

/// The slot `r` holds the operand `o`: a leaf for it, or nothing.
pub open spec fn holds_operand(r: Option<Node>, o: Option<Token>) -> bool {
    match o {
        None => r is None,
        Some(t) => r matches Some(n) && is_leaf(n, t),
    }
}

/// `r` is the instruction at the front of `ts`, and `rest` is what is left
/// after it. The first token becomes the root; operands are read only when
/// a register follows it.
pub open spec fn parses_operation(ts: Seq<Token>, r: Option<Node>, rest: Seq<Token>) -> bool {
    if ts.len() == 0 {
        r is None && rest == ts
    } else {
        let after = ts.drop_first();
        &&& r is Some
        &&& r->Some_0.value == ts[0]
        &&& if after.len() > 0 && after[0].tok_type == TokenType::REGISTER {
            let (first, n1) = operand_at(after);
            let (second, n2) = operand_at(after.skip(n1 as int));
            &&& holds_operand(r->Some_0.branch.l_child, first)
            &&& holds_operand(r->Some_0.branch.r_child, second)
            &&& rest == after.skip((n1 + n2) as int)
        } else {
            &&& r->Some_0.branch.l_child is None
            &&& r->Some_0.branch.r_child is None
            &&& rest == after
        }
    }
}

/// A token at which the search for a statement stops.
pub open spec fn stops_search(t: Token) -> bool {
    t.tok_type == TokenType::OPERATION || t.tok_type == TokenType::REGISTER || t.tok_type
        == TokenType::EOF
}

/// The number of tokens skipped before a statement: commas, line ends and
/// illegal tokens.
pub open spec fn skipped(ts: Seq<Token>) -> nat
    decreases ts.len(),
{
    if ts.len() == 0 || stops_search(ts[0]) {
        0
    } else {
        1 + skipped(ts.drop_first())
    }
}

/// `st` is the statement at the front of `ts`, and `rest` is what is left.
pub open spec fn parses_statement(ts: Seq<Token>, st: Statement, rest: Seq<Token>) -> bool {
    let s = ts.skip(skipped(ts) as int);
    if s.len() > 0 && s[0].tok_type == TokenType::OPERATION {
        st matches Statement::Instruction(n) && parses_operation(s, Some(n), rest)
    } else if s.len() > 0 && s[0].tok_type == TokenType::REGISTER {
        st == Statement::MisplacedOperand(s[0].location) && rest == s
    } else {
        st is Empty && rest == s
    }
}

/// `r` is the instruction at the front of `ts`, if there is one, and `rest`
/// is what is left.
pub open spec fn parses_expression(ts: Seq<Token>, r: Option<Node>, rest: Seq<Token>) -> bool {
    let s = ts.skip(skipped(ts) as int);
    if s.len() > 0 && s[0].tok_type == TokenType::OPERATION {
        parses_operation(s, r, rest)
    } else {
        r is None && rest == s
    }
}

proof fn lemma_skip_skip(ts: Seq<Token>, a: int, b: int)
    requires
        0 <= a,
        0 <= b,
        a + b <= ts.len(),
    ensures
        ts.skip(a).skip(b) == ts.skip(a + b),
{
    assert(ts.skip(a).skip(b) =~= ts.skip(a + b));
}

proof fn lemma_operand_len(ts: Seq<Token>)
    ensures
        operand_at(ts).1 <= ts.len(),
    decreases ts.len(),
{
    if ts.len() > 0 && ts[0].tok_type == TokenType::COMMA_DELIM {
        lemma_operand_len(ts.drop_first());
    }
}

impl Parser {
    /// Reads one operand, past any commas before it. The slot stays empty
    /// where no register or immediate value comes.
    pub fn parse_operand(&mut self) -> (r: Option<Node>)
        ensures
            holds_operand(r, operand_at(old(self).tok_stream@).0),
            final(self).tok_stream@ == old(self).tok_stream@.skip(
                operand_at(old(self).tok_stream@).1 as int,
            ),
    {
        let ghost ts = self.tok_stream@;
        assert(ts.skip(0) =~= ts);
        loop
            invariant
                ts == old(self).tok_stream@,
                ts.len() >= self.tok_stream@.len(),
                self.tok_stream@ == ts.skip(ts.len() - self.tok_stream@.len()),
                operand_at(ts).0 == operand_at(self.tok_stream@).0,
                operand_at(ts).1 == operand_at(self.tok_stream@).1 + (ts.len()
                    - self.tok_stream@.len()),
            decreases self.tok_stream@.len(),
        {
            if self.tok_stream.len() == 0 {
                return None;
            }
            let kind = self.tok_stream[0].tok_type;
            if kind == TokenType::REGISTER || kind == TokenType::IMM_VALUE {
                let ghost k = ts.len() - self.tok_stream@.len();
                let t = self.tok_stream.remove(0);
                proof {
                    lemma_skip_skip(ts, k, 1);
                    assert(self.tok_stream@ =~= ts.skip(k).skip(1));
                }
                return Some(Node::new(t, Box::new(Tree::default())));
            } else if kind == TokenType::COMMA_DELIM {
                let ghost k = ts.len() - self.tok_stream@.len();
                let ghost cur = self.tok_stream@;
                self.tok_stream.remove(0);
                proof {
                    lemma_skip_skip(ts, k, 1);
                    assert(self.tok_stream@ =~= ts.skip(k).skip(1));
                    assert(self.tok_stream@ =~= cur.drop_first());
                }
            } else {
                return None;
            }
        }
    }

    /// Reads an instruction: the token in front becomes the root, and when
    /// a register follows it, two operand slots are read.
    pub fn parse_operation(&mut self) -> (r: Option<Node>)
        ensures
            parses_operation(old(self).tok_stream@, r, final(self).tok_stream@),
    {
        if self.tok_stream.len() == 0 {
            return None;
        }
        let ghost ts = self.tok_stream@;
        let value = self.tok_stream.remove(0);
        assert(self.tok_stream@ =~= ts.drop_first());
        let mut node = Node::new(value, Box::new(Tree::default()));
        if self.tok_stream.len() > 0 && self.tok_stream[0].tok_type == TokenType::REGISTER {
            let ghost after = self.tok_stream@;
            let l_child = self.parse_operand();
            let r_child = self.parse_operand();
            proof {
                lemma_operand_len(after);
                lemma_operand_len(after.skip(operand_at(after).1 as int));
                lemma_skip_skip(
                    after,
                    operand_at(after).1 as int,
                    operand_at(after.skip(operand_at(after).1 as int)).1 as int,
                );
            }
            node.branch = Box::new(Tree::new(l_child, r_child));
        }
        Some(node)
    }

    /// Reads the next statement: tokens that start none are skipped, an
    /// operation is read with its operands, and a register in its place is
    /// reported without being consumed.
    pub fn parse_statement(&mut self) -> (r: Statement)
        ensures
            parses_statement(old(self).tok_stream@, r, final(self).tok_stream@),
    {
        let ghost ts = self.tok_stream@;
        assert(ts.skip(0) =~= ts);
        loop
            invariant
                ts == old(self).tok_stream@,
                ts.len() >= self.tok_stream@.len(),
                self.tok_stream@ == ts.skip(ts.len() - self.tok_stream@.len()),
                skipped(ts) == skipped(self.tok_stream@) + (ts.len() - self.tok_stream@.len()),
            decreases self.tok_stream@.len(),
        {
            if self.tok_stream.len() == 0 {
                return Statement::Empty;
            }
            let kind = self.tok_stream[0].tok_type;
            if kind == TokenType::OPERATION {
                let ghost k = ts.len() - self.tok_stream@.len();
                assert(ts.skip(skipped(ts) as int) == self.tok_stream@);
                match self.parse_operation() {
                    Some(n) => {
                        return Statement::Instruction(n);
                    },
                    None => {
                        return Statement::Empty;
                    },
                }
            } else if kind == TokenType::REGISTER {
                return Statement::MisplacedOperand(self.tok_stream[0].location);
            } else if kind == TokenType::EOF {
                return Statement::Empty;
            } else {
                let ghost k = ts.len() - self.tok_stream@.len();
                let ghost cur = self.tok_stream@;
                self.tok_stream.remove(0);
                proof {
                    lemma_skip_skip(ts, k, 1);
                    assert(self.tok_stream@ =~= ts.skip(k).skip(1));
                    assert(self.tok_stream@ =~= cur.drop_first());
                }
            }
        }
    }

    /// The instruction of the next statement, if it is one.
    pub fn parse_expression(&mut self) -> (r: Option<Node>)
        ensures
            parses_expression(old(self).tok_stream@, r, final(self).tok_stream@),
    {
        match self.parse_statement() {
            Statement::Instruction(n) => Some(n),
            _ => None,
        }
    }
}

proof fn lemma_all_skipped(ts: Seq<Token>)
    requires
        forall|k: int| 0 <= k < ts.len() ==> !stops_search(#[trigger] ts[k]),
    ensures
        skipped(ts) == ts.len(),
        ts.skip(ts.len() as int) == Seq::<Token>::empty(),
    decreases ts.len(),
{
    assert(ts.skip(ts.len() as int) =~= Seq::<Token>::empty());
    if ts.len() > 0 {
        assert(forall|k: int| 0 <= k < ts.len() - 1 ==> ts.drop_first()[k] == ts[k + 1]);
        lemma_all_skipped(ts.drop_first());
    }
}

/// A line of spaces and a line end gives a single line-end token, and
/// parsing an expression from it consumes that token and gives no
/// instruction.
pub proof fn blank_line_parses_to_nothing(
    k: nat,
    line_no: nat,
    ts: Seq<Token>,
    r: Option<Node>,
    rest: Seq<Token>,
)
    requires
        views(ts) == lex_line(blank_line(k), line_no as int),
        parses_expression(ts, r, rest),
    ensures
        ts.len() == 1,
        ts[0].tok_type == TokenType::EOL,
        r is None,
        rest.len() == 0,
{
    lex_blank_line(k, line_no);
    assert(views(ts).len() == 1);
    assert(views(ts)[0] == ts[0]@);
    lemma_all_skipped(ts);
}

/// A word of letters that is neither a mnemonic nor a register name, and a
/// line end, gives an illegal token and a line end; parsing an expression
/// from them skips both and gives no instruction.
pub proof fn unknown_word_parses_to_nothing(
    w: Seq<char>,
    line_no: nat,
    ts: Seq<Token>,
    r: Option<Node>,
    rest: Seq<Token>,
)
    requires
        w.len() > 0,
        forall|k: int| 0 <= k < w.len() ==> alphabetic(#[trigger] w[k]),
        !is_mnemonic(w),
        !is_register_name(w),
        views(ts) == lex_line(w + seq!['\n'], line_no as int),
        parses_expression(ts, r, rest),
    ensures
        ts.len() == 2,
        ts[0].tok_type == TokenType::ILLEGAL,
        ts[0].literal@ == w,
        ts[1].tok_type == TokenType::EOL,
        r is None,
        rest.len() == 0,
{
    lex_unknown_word(w, line_no);
    assert(views(ts).len() == 2);
    assert(views(ts)[0] == ts[0]@);
    assert(views(ts)[1] == ts[1]@);
    lemma_all_skipped(ts);
}

/// The tokens of a line `OP REG,IMMH` and a line end parse into one
/// instruction: the operation at the root, a leaf for the register on the
/// left and a leaf for the immediate value on the right. Only the line-end
/// token is left.
pub proof fn operation_line_parses(
    op: Seq<char>,
    reg: Seq<char>,
    imm: Seq<char>,
    line_no: nat,
    ts: Seq<Token>,
    r: Option<Node>,
    rest: Seq<Token>,
)
    requires
        is_mnemonic(op),
        is_register_name(reg),
        imm.len() > 0,
        is_digit(imm[0]),
        forall|k: int| 0 <= k < imm.len() ==> is_hex_digit(#[trigger] imm[k]),
        views(ts) == lex_line(op + seq![' '] + reg + seq![','] + imm + seq!['H', '\n'], line_no as int),
        parses_expression(ts, r, rest),
    ensures
        ts.len() == 5,
        r is Some,
        r->Some_0.value == ts[0],
        ts[0].tok_type == TokenType::OPERATION,
        holds_operand(r->Some_0.branch.l_child, Some(ts[1])),
        ts[1].tok_type == TokenType::REGISTER,
        holds_operand(r->Some_0.branch.r_child, Some(ts[3])),
        ts[3].tok_type == TokenType::IMM_VALUE,
        rest == seq![ts[4]],
{
    lex_operation_register_immediate(op, reg, imm, line_no);
    assert(views(ts).len() == 5);
    assert(forall|k: int| 0 <= k < 5 ==> views(ts)[k] == #[trigger] ts[k]@);
    assert(skipped(ts) == 0);
    assert(ts.skip(0) =~= ts);
    let after = ts.drop_first();
    assert(after[0] == ts[1]);
    assert(after.skip(1) =~= seq![ts[2], ts[3], ts[4]]);
    assert(after.skip(1).drop_first() =~= seq![ts[3], ts[4]]);
    assert(operand_at(after.skip(1).drop_first()) == (Some(ts[3]), 1nat));
    assert(operand_at(after.skip(1)) == (Some(ts[3]), 2nat));
    assert(after.skip(3) =~= seq![ts[4]]);
}

} // verus!
