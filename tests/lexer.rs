use asm8085::lexer::{get_identifier_token, lex_source, Lexer};
use asm8085::token::{Location, Token, TokenType};

fn collect(source: &str, line_no: usize) -> Vec<Token> {
    let mut l = Lexer::new(String::from(source), line_no);
    let mut tokens: Vec<Token> = vec![];
    while let Some(token) = l.next() {
        tokens.push(token);
    }
    tokens
}

#[test]
fn imm_test() {
    let source = String::from("MVI A,05H\n");
    let mut l = Lexer::new(source, 0);
    let mut tokens: Vec<Token> = vec![];
    while let Some(token) = l.next() {
        tokens.push(token);
    }

    assert_eq!(
        vec![
            Token::new(
                3,
                TokenType::OPERATION,
                Location::new(0, 3),
                "MVI".to_string()
            ),
            Token::new(1, TokenType::REGISTER, Location::new(0, 5), "A".to_string()),
            Token::new(
                1,
                TokenType::COMMA_DELIM,
                Location::new(0, 6),
                ",".to_string()
            ),
            Token::new(
                3,
                TokenType::IMM_VALUE,
                Location::new(0, 9),
                "05H".to_string()
            ),
            Token::new(1, TokenType::EOL, Location::new(0, 10), "\n".to_string())
        ],
        tokens
    );
}

#[test]
fn reg_pair() {
    let source = String::from("MVI A,SP\n");
    let mut l = Lexer::new(source, 0);
    let mut tokens: Vec<Token> = vec![];
    while let Some(token) = l.next() {
        tokens.push(token);
    }

    assert_eq!(
        vec![
            Token::new(
                3,
                TokenType::OPERATION,
                Location::new(0, 3),
                "MVI".to_string()
            ),
            Token::new(1, TokenType::REGISTER, Location::new(0, 5), "A".to_string()),
            Token::new(
                1,
                TokenType::COMMA_DELIM,
                Location::new(0, 6),
                ",".to_string()
            ),
            Token::new(
                2,
                TokenType::REGISTER,
                Location::new(0, 8),
                "SP".to_string()
            ),
            Token::new(1, TokenType::EOL, Location::new(0, 9), "\n".to_string())
        ],
        tokens
    );
}

#[test]
fn tokens_matches_next() {
    let by_next = collect("MVI A,05H\n", 0);
    let all = Lexer::new(String::from("MVI A,05H\n"), 0).tokens();
    assert_eq!(by_next, all);
}

#[test]
fn operation_register_immediate_kinds() {
    let tokens = lex_source(String::from("LXI PSW,1F2AH\n"), 4);
    let kinds: Vec<TokenType> = tokens.iter().map(|t| t.tok_type).collect();
    assert_eq!(
        kinds,
        vec![
            TokenType::OPERATION,
            TokenType::REGISTER,
            TokenType::COMMA_DELIM,
            TokenType::IMM_VALUE,
            TokenType::EOL
        ]
    );
    let texts: Vec<String> = tokens.iter().map(|t| t.literal.clone()).collect();
    assert_eq!(texts, vec!["LXI", "PSW", ",", "1F2AH", "\n"]);
    let lens: Vec<usize> = tokens.iter().map(|t| t.len).collect();
    assert_eq!(lens, vec![3, 3, 1, 5, 1]);
    assert_eq!(tokens[3].location, Location::new(4, 13));
}

#[test]
fn operation_register_register_kinds() {
    let tokens = lex_source(String::from("MOV B,C\n"), 0);
    let kinds: Vec<TokenType> = tokens.iter().map(|t| t.tok_type).collect();
    assert_eq!(
        kinds,
        vec![
            TokenType::OPERATION,
            TokenType::REGISTER,
            TokenType::COMMA_DELIM,
            TokenType::REGISTER,
            TokenType::EOL
        ]
    );
    assert_eq!(tokens[3].literal, "C");
    assert_eq!(tokens[4].location, Location::new(0, 8));
}

#[test]
fn two_lexers_agree() {
    let a = collect("PUSH B , 3\n", 7);
    let b = collect("PUSH B , 3\n", 7);
    assert_eq!(a, b);
    assert_eq!(a.len(), 5);
}

#[test]
fn blank_line_is_one_line_end() {
    let tokens = collect("    \n", 2);
    assert_eq!(
        tokens,
        vec![Token::new(1, TokenType::EOL, Location::new(2, 5), "\n".to_string())]
    );
}

#[test]
fn unknown_word_is_illegal() {
    let tokens = collect("FOO\n", 0);
    assert_eq!(
        tokens,
        vec![
            Token::new(3, TokenType::ILLEGAL, Location::new(0, 3), "FOO".to_string()),
            Token::new(1, TokenType::EOL, Location::new(0, 4), "\n".to_string())
        ]
    );
}

#[test]
fn unknown_character_has_placeholder_literal() {
    let tokens = collect("#", 0);
    assert_eq!(
        tokens,
        vec![Token::new(1, TokenType::ILLEGAL, Location::new(0, 1), "\0".to_string())]
    );
}

#[test]
fn line_end_moves_to_next_row() {
    let tokens = collect("A\nB", 3);
    assert_eq!(
        tokens,
        vec![
            Token::new(1, TokenType::REGISTER, Location::new(3, 1), "A".to_string()),
            Token::new(1, TokenType::EOL, Location::new(3, 2), "\n".to_string()),
            Token::new(1, TokenType::REGISTER, Location::new(4, 1), "B".to_string())
        ]
    );
}

#[test]
fn immediate_takes_upper_case_hex_only() {
    let tokens = collect("12AB,7", 0);
    assert_eq!(
        tokens,
        vec![
            Token::new(4, TokenType::IMM_VALUE, Location::new(0, 4), "12AB".to_string()),
            Token::new(1, TokenType::COMMA_DELIM, Location::new(0, 5), ",".to_string()),
            Token::new(1, TokenType::IMM_VALUE, Location::new(0, 6), "7".to_string())
        ]
    );
}

#[test]
fn lower_case_letters_end_an_immediate() {
    let tokens = collect("0ah\n", 0);
    assert_eq!(
        tokens,
        vec![
            Token::new(1, TokenType::IMM_VALUE, Location::new(0, 1), "0".to_string()),
            Token::new(2, TokenType::ILLEGAL, Location::new(0, 3), "ah".to_string()),
            Token::new(1, TokenType::EOL, Location::new(0, 4), "\n".to_string())
        ]
    );
    let mut l = Lexer::new(String::from("0ah\n"), 0);
    let t = l.read_immediate();
    assert_eq!(t, Token::new(1, TokenType::IMM_VALUE, Location::new(0, 1), "0".to_string()));
    assert_eq!(l.ch, 'a');
}

#[test]
fn non_ascii_letters_join_an_identifier() {
    let tokens = collect("MVI\u{e9} A,B\n", 0);
    assert_eq!(
        tokens,
        vec![
            Token::new(4, TokenType::ILLEGAL, Location::new(0, 4), "MVI\u{e9}".to_string()),
            Token::new(1, TokenType::REGISTER, Location::new(0, 6), "A".to_string()),
            Token::new(1, TokenType::COMMA_DELIM, Location::new(0, 7), ",".to_string()),
            Token::new(1, TokenType::REGISTER, Location::new(0, 8), "B".to_string()),
            Token::new(1, TokenType::EOL, Location::new(0, 9), "\n".to_string())
        ]
    );
}

#[test]
fn non_ascii_digit_is_illegal() {
    let tokens = collect("\u{663}1", 0);
    assert_eq!(
        tokens,
        vec![
            Token::new(1, TokenType::ILLEGAL, Location::new(0, 1), "\0".to_string()),
            Token::new(1, TokenType::IMM_VALUE, Location::new(0, 2), "1".to_string())
        ]
    );
}

#[test]
fn only_one_suffix_is_taken() {
    let tokens = collect("0HH", 0);
    assert_eq!(
        tokens,
        vec![
            Token::new(2, TokenType::IMM_VALUE, Location::new(0, 2), "0H".to_string()),
            Token::new(1, TokenType::REGISTER, Location::new(0, 3), "H".to_string())
        ]
    );
}

#[test]
fn end_of_text_ends_tokens() {
    let mut l = Lexer::new(String::from("A"), 0);
    assert!(l.next().is_some());
    assert!(l.next().is_none());
    assert!(l.next().is_none());
}

#[test]
fn embedded_sentinel_ends_tokens() {
    let tokens = collect("A\0B", 0);
    assert_eq!(tokens.len(), 1);
}

#[test]
fn consume_moves_cursor() {
    let mut l = Lexer::new(String::from("AB"), 9);
    assert_eq!(l.ch, 'A');
    l.consume();
    assert_eq!(l.ch, 'B');
    assert_eq!(l.curr_position, 1);
    assert_eq!(l.read_position, 2);
    assert_eq!(l.location, Location::new(9, 1));
    l.consume();
    assert_eq!(l.ch, '\0');
    l.consume();
    assert_eq!(l.ch, '\0');
    assert_eq!(l.curr_position, 3);
    assert_eq!(l.read_position, 4);
    assert_eq!(l.location, Location::new(9, 3));
    assert!(l.next().is_none());
}

#[test]
fn read_identifier_and_immediate() {
    let mut l = Lexer::new(String::from("STAX 3FH"), 0);
    let t = l.read_identifier();
    assert_eq!(t, Token::new(4, TokenType::OPERATION, Location::new(0, 4), "STAX".to_string()));
    l.consume();
    let t = l.read_immediate();
    assert_eq!(t, Token::new(3, TokenType::IMM_VALUE, Location::new(0, 8), "3FH".to_string()));
}

#[test]
fn identifier_classes() {
    for w in ["ADD", "SUB", "MOV", "MVI", "LXI", "PUSH", "POP", "INR", "DCR", "DAD", "LDAX", "STAX"] {
        assert_eq!(get_identifier_token(w), TokenType::OPERATION);
    }
    for w in ["A", "B", "C", "D", "E", "H", "L", "SP", "PSW"] {
        assert_eq!(get_identifier_token(w), TokenType::REGISTER);
    }
    for w in ["add", "FOO", "ADDX", "", "PS"] {
        assert_eq!(get_identifier_token(w), TokenType::ILLEGAL);
    }
}
