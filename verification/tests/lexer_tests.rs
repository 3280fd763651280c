use interpreter_in_rs::lexer::Lexer;
use interpreter_in_rs::token::Token;

/// Pulls every token out of `input`, the final `EOF` included.
fn tokens_of(input: &str) -> Vec<Token> {
    let mut lexer = Lexer::new(input);
    let mut out = Vec::new();
    loop {
        let tok = lexer.next_token();
        let done = tok == Token::EOF;
        out.push(tok);
        if done {
            break;
        }
    }
    out
}

#[test]
fn test_next_token() {
    // given
    let input = r#"let five = 5;
let ten = 10;

let add = fn(x, y) {
    x + y;
};

let result = add(five, ten);
"#;
    let tests = vec![
        Token::LET,
        Token::IDENT(String::from("five")),
        Token::ASSIGN,
        Token::INT(5),
        Token::SEMICOLON,
        Token::LET,
        Token::IDENT(String::from("ten")),
        Token::ASSIGN,
        Token::INT(10),
        Token::SEMICOLON,
        Token::LET,
        Token::IDENT(String::from("add")),
        Token::ASSIGN,
        Token::FUNCTION,
        Token::LPAREN,
        Token::IDENT(String::from("x")),
        Token::COMMA,
        Token::IDENT(String::from("y")),
        Token::RPAREN,
        Token::LBRACE,
        Token::IDENT(String::from("x")),
        Token::PLUS,
        Token::IDENT(String::from("y")),
        Token::SEMICOLON,
        Token::RBRACE,
        Token::SEMICOLON,
        Token::LET,
        Token::IDENT(String::from("result")),
        Token::ASSIGN,
        Token::IDENT(String::from("add")),
        Token::LPAREN,
        Token::IDENT(String::from("five")),
        Token::COMMA,
        Token::IDENT(String::from("ten")),
        Token::RPAREN,
        Token::SEMICOLON,
        Token::EOF,
    ];

    // when
    let mut lexer = Lexer::new(input);

    // then
    for expect in tests {
        let tok = lexer.next_token();
        assert_eq!(expect, tok);
    }
}

#[test]
fn test_extend_token() {
    let input = r#"!-/*5;
5 < 10 > 5;
"#;
    let tests = vec![
        Token::BANG,
        Token::MINUS,
        Token::SLASH,
        Token::ASTERISK,
        Token::INT(5),
        Token::SEMICOLON,
        Token::INT(5),
        Token::LT,
        Token::INT(10),
        Token::GT,
        Token::INT(5),
        Token::SEMICOLON,
        Token::EOF,
    ];

    // when
    let mut lexer = Lexer::new(input);

    // then
    for expect in tests {
        let tok = lexer.next_token();
        assert_eq!(expect, tok);
    }
}

#[test]
fn test_new_keywords() {
    let input = r#"if (5 < 10) {
    return true;
} else {
    return false;
}"#;

    let tests = vec![
        Token::IF,
        Token::LPAREN,
        Token::INT(5),
        Token::LT,
        Token::INT(10),
        Token::RPAREN,
        Token::LBRACE,
        Token::RETURN,
        Token::TRUE,
        Token::SEMICOLON,
        Token::RBRACE,
        Token::ELSE,
        Token::LBRACE,
        Token::RETURN,
        Token::FALSE,
        Token::SEMICOLON,
        Token::RBRACE,
        Token::EOF,
    ];

    // when
    let mut lexer = Lexer::new(input);

    // then
    for expect in tests {
        let tok = lexer.next_token();
        assert_eq!(expect, tok);
    }
}

#[test]
fn test_scenario_symbols() {
    assert_eq!(
        tokens_of("=+(){},;"),
        vec![
            Token::ASSIGN,
            Token::PLUS,
            Token::LPAREN,
            Token::RPAREN,
            Token::LBRACE,
            Token::RBRACE,
            Token::COMMA,
            Token::SEMICOLON,
            Token::EOF,
        ]
    );
}

#[test]
fn test_scenario_let_five() {
    assert_eq!(
        tokens_of("let five = 5;"),
        vec![
            Token::LET,
            Token::IDENT(String::from("five")),
            Token::ASSIGN,
            Token::INT(5),
            Token::SEMICOLON,
            Token::EOF,
        ]
    );
}

#[test]
fn test_scenario_operators() {
    assert_eq!(
        tokens_of("!-/*5;"),
        vec![
            Token::BANG,
            Token::MINUS,
            Token::SLASH,
            Token::ASTERISK,
            Token::INT(5),
            Token::SEMICOLON,
            Token::EOF,
        ]
    );
}

#[test]
fn test_scenario_comparisons() {
    assert_eq!(
        tokens_of("5 < 10 > 5;"),
        vec![
            Token::INT(5),
            Token::LT,
            Token::INT(10),
            Token::GT,
            Token::INT(5),
            Token::SEMICOLON,
            Token::EOF,
        ]
    );
}

#[test]
fn test_scenario_empty_input() {
    assert_eq!(tokens_of(""), vec![Token::EOF]);
}

#[test]
fn test_whitespace_between_tokens_is_ignored() {
    let spaced = "  let\tfive\n=\r\n5 ;  ";
    let tight = "let five = 5;";
    assert_eq!(tokens_of(spaced), tokens_of(tight));
    assert_eq!(tokens_of("\t\n\r "), vec![Token::EOF]);
}

#[test]
fn test_ident_runs_are_maximal() {
    // runs that merely contain or extend a keyword spelling are identifiers
    assert_eq!(
        tokens_of("lettuce fnx _ab iff"),
        vec![
            Token::IDENT(String::from("lettuce")),
            Token::IDENT(String::from("fnx")),
            Token::IDENT(String::from("_ab")),
            Token::IDENT(String::from("iff")),
            Token::EOF,
        ]
    );
}

#[test]
fn test_digit_runs_are_maximal() {
    // a digit run ends at the first non-digit; leading zeros carry no weight
    assert_eq!(
        tokens_of("0123 7x42"),
        vec![
            Token::INT(123),
            Token::INT(7),
            Token::IDENT(String::from("x")),
            Token::INT(42),
            Token::EOF,
        ]
    );
}

#[test]
fn test_int_extremes() {
    assert_eq!(
        tokens_of("9223372036854775807;"),
        vec![Token::INT(9223372036854775807), Token::SEMICOLON, Token::EOF]
    );
    // one past the largest i64: rejected, scanning continues after the run
    assert_eq!(
        tokens_of("9223372036854775808;"),
        vec![Token::ILLEGAL, Token::SEMICOLON, Token::EOF]
    );
}

#[test]
fn test_illegal_byte_is_recoverable() {
    assert_eq!(
        tokens_of("a#b"),
        vec![
            Token::IDENT(String::from("a")),
            Token::ILLEGAL,
            Token::IDENT(String::from("b")),
            Token::EOF,
        ]
    );
}

#[test]
fn test_eof_is_idempotent() {
    let mut lexer = Lexer::new("x");
    assert_eq!(lexer.next_token(), Token::IDENT(String::from("x")));
    assert_eq!(lexer.next_token(), Token::EOF);
    assert_eq!(lexer.next_token(), Token::EOF);
    assert_eq!(lexer.next_token(), Token::EOF);
}

#[test]
fn test_embedded_sentinel_ends_scan() {
    // a 0 byte inside the text signals end-of-input to the classifier
    let mut lexer = Lexer::new("ab\0cd");
    assert_eq!(lexer.next_token(), Token::IDENT(String::from("ab")));
    assert_eq!(lexer.next_token(), Token::EOF);
}

#[test]
fn test_same_input_same_tokens() {
    let input = "let add = fn(x, y) { x + y; };";
    let first = tokens_of(input);
    let second = tokens_of(input);
    assert_eq!(first, second);
}
