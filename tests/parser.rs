use asm8085::lexer::lex_source;
use asm8085::parser::{Node, Parser, Statement, Tree};
use asm8085::token::{Location, Token, TokenType};

fn tok(kind: TokenType, text: &str) -> Token {
    Token::new(text.chars().count(), kind, Location::new(0, 0), text.to_string())
}

fn leaf(t: Token) -> Node {
    Node::new(t, Box::new(Tree::default()))
}

#[test]
fn parse_case_a() {
    let tokens = lex_source(String::from("MVI A,05H\n"), 0);
    let mut p = Parser::new(tokens);
    let node = p.parse_expression().expect("an instruction");
    let expected = Node::new(
        Token::new(3, TokenType::OPERATION, Location::new(0, 3), "MVI".to_string()),
        Box::new(Tree::new(
            Some(leaf(Token::new(1, TokenType::REGISTER, Location::new(0, 5), "A".to_string()))),
            Some(leaf(Token::new(3, TokenType::IMM_VALUE, Location::new(0, 9), "05H".to_string()))),
        )),
    );
    assert_eq!(node, expected);
    assert_eq!(p.tok_stream.len(), 1);
    assert_eq!(p.tok_stream[0].tok_type, TokenType::EOL);
}

#[test]
fn parse_blank_line() {
    let tokens = lex_source(String::from("   \n"), 0);
    assert_eq!(tokens.len(), 1);
    let mut p = Parser::new(tokens);
    assert!(p.parse_expression().is_none());
    assert!(p.tok_stream.is_empty());
}

#[test]
fn parse_unknown_word() {
    let tokens = lex_source(String::from("FOO\n"), 0);
    let mut p = Parser::new(tokens);
    assert!(p.parse_expression().is_none());
    assert!(p.tok_stream.is_empty());
}

#[test]
fn register_first_is_reported() {
    let tokens = lex_source(String::from(", SP,A\n"), 6);
    let mut p = Parser::new(tokens);
    match p.parse_statement() {
        Statement::MisplacedOperand(loc) => assert_eq!(loc, Location::new(6, 4)),
        other => panic!("unexpected {:?}", other),
    }
    assert_eq!(p.tok_stream.len(), 4);
    assert!(p.parse_expression().is_none());
    assert_eq!(p.tok_stream.len(), 4);
}

#[test]
fn end_of_input_token_stops() {
    let mut p = Parser::new(vec![tok(TokenType::EOF, ""), tok(TokenType::OPERATION, "ADD")]);
    assert!(matches!(p.parse_statement(), Statement::Empty));
    assert_eq!(p.tok_stream.len(), 2);
}

#[test]
fn operation_then_immediate_has_no_operands() {
    let tokens = lex_source(String::from("ADD 05H\n"), 0);
    let mut p = Parser::new(tokens);
    let node = p.parse_expression().expect("an instruction");
    assert_eq!(node.value.literal, "ADD");
    assert_eq!(*node.branch, Tree::default());
    assert_eq!(p.tok_stream.len(), 2);
}

#[test]
fn single_register_operand() {
    let tokens = lex_source(String::from("PUSH B\n"), 0);
    let mut p = Parser::new(tokens);
    let node = p.parse_expression().expect("an instruction");
    let left = node.branch.l_child.as_ref().expect("left operand");
    assert_eq!(left.value.literal, "B");
    assert!(node.branch.r_child.is_none());
    assert_eq!(p.tok_stream.len(), 1);
}

#[test]
fn leading_tokens_are_skipped() {
    let tokens = lex_source(String::from(",#\nMOV A,B\n"), 0);
    let mut p = Parser::new(tokens);
    match p.parse_statement() {
        Statement::Instruction(n) => {
            assert_eq!(n.value.literal, "MOV");
            assert_eq!(n.branch.r_child.as_ref().unwrap().value.literal, "B");
        }
        other => panic!("unexpected {:?}", other),
    }
}

#[test]
fn operand_skips_commas() {
    let mut p = Parser::new(vec![
        tok(TokenType::COMMA_DELIM, ","),
        tok(TokenType::COMMA_DELIM, ","),
        tok(TokenType::IMM_VALUE, "1"),
        tok(TokenType::EOL, "\n"),
    ]);
    let n = p.parse_operand().expect("an operand");
    assert_eq!(n, leaf(tok(TokenType::IMM_VALUE, "1")));
    assert!(p.parse_operand().is_none());
    assert_eq!(p.tok_stream.len(), 1);
}

#[test]
fn operation_on_empty_stream() {
    let mut p = Parser::new(vec![]);
    assert!(p.parse_operation().is_none());
    assert!(matches!(p.parse_statement(), Statement::Empty));
}

#[test]
fn non_ascii_word_gives_no_instruction() {
    let tokens = lex_source(String::from("MVI\u{e9} A,B\n"), 0);
    let mut p = Parser::new(tokens);
    assert!(p.parse_expression().is_none());
    assert_eq!(p.tok_stream.len(), 4);
}
