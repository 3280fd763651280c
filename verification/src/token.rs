use vstd::prelude::*;

verus! {

/// One lexical unit of source text: a kind plus, for identifiers and
/// integer literals, a payload. Tokens are compared structurally.
#[derive(Debug, PartialEq)]
pub enum Token {
    ILLEGAL,
    EOF,
    IDENT(String),
    INT(i64),
    ASSIGN,
    PLUS,
    MINUS,
    BANG,
    ASTERISK,
    SLASH,
    LT,
    GT,
    COMMA,
    SEMICOLON,
    LPAREN,
    RPAREN,
    LBRACE,
    RBRACE,
    FUNCTION,
    LET,
    IF,
    ELSE,
    RETURN,
    TRUE,
    FALSE,
}

/// The mathematical shape of a token: the identifier payload is a sequence
/// of characters and the integer payload an unbounded integer, so that
/// contracts can state token values directly.
pub enum TokenModel {
    ILLEGAL,
    EOF,
    IDENT(Seq<char>),
    INT(int),
    ASSIGN,
    PLUS,
    MINUS,
    BANG,
    ASTERISK,
    SLASH,
    LT,
    GT,
    COMMA,
    SEMICOLON,
    LPAREN,
    RPAREN,
    LBRACE,
    RBRACE,
    FUNCTION,
    LET,
    IF,
    ELSE,
    RETURN,
    TRUE,
    FALSE,
}

impl View for Token {
    type V = TokenModel;

    open spec fn view(&self) -> TokenModel {
        match self {
            Token::ILLEGAL => TokenModel::ILLEGAL,
            Token::EOF => TokenModel::EOF,
            Token::IDENT(s) => TokenModel::IDENT(s@),
            Token::INT(v) => TokenModel::INT(*v as int),
            Token::ASSIGN => TokenModel::ASSIGN,
            Token::PLUS => TokenModel::PLUS,
            Token::MINUS => TokenModel::MINUS,
            Token::BANG => TokenModel::BANG,
            Token::ASTERISK => TokenModel::ASTERISK,
            Token::SLASH => TokenModel::SLASH,
            Token::LT => TokenModel::LT,
            Token::GT => TokenModel::GT,
            Token::COMMA => TokenModel::COMMA,
            Token::SEMICOLON => TokenModel::SEMICOLON,
            Token::LPAREN => TokenModel::LPAREN,
            Token::RPAREN => TokenModel::RPAREN,
            Token::LBRACE => TokenModel::LBRACE,
            Token::RBRACE => TokenModel::RBRACE,
            Token::FUNCTION => TokenModel::FUNCTION,
            Token::LET => TokenModel::LET,
            Token::IF => TokenModel::IF,
            Token::ELSE => TokenModel::ELSE,
            Token::RETURN => TokenModel::RETURN,
            Token::TRUE => TokenModel::TRUE,
            Token::FALSE => TokenModel::FALSE,
        }
    }
}

} // verus!
