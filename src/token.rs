//! The shared vocabulary of the pipeline: token kinds, literal values and
//! tokens, and how a token is written out.

use vstd::prelude::*;
use crate::number::{Number, Rat, rat_text};
use crate::text::push_text;

verus! {

#[allow(non_camel_case_types)]
#[derive(Debug, Clone, Copy, PartialEq, Eq, Structural)]
pub enum TokenType {
    Left_Paren,
    Right_Paren,
    Left_Brace,
    Right_Brace,
    Comma,
    Dot,
    Minus,
    Plus,
    Semicolon,
    Slash,
    Star,
    Bang,
    Bang_Equal,
    Equal,
    Equal_Equal,
    Greater,
    Greater_Equal,
    Less,
    Less_Equal,
    Identifier,
    String,
    Number,
    And,
    Class,
    Else,
    False,
    Fun,
    For,
    If,
    Nil,
    Or,
    Print,
    Return,
    Super,
    This,
    True,
    Var,
    While,
    EOF,
}

/// The name under which a kind is written out.
pub open spec fn kind_name(k: TokenType) -> Seq<char> {
    match k {
        TokenType::Left_Paren => "LEFT_PAREN"@,
        TokenType::Right_Paren => "RIGHT_PAREN"@,
        TokenType::Left_Brace => "LEFT_BRACE"@,
        TokenType::Right_Brace => "RIGHT_BRACE"@,
        TokenType::Comma => "COMMA"@,
        TokenType::Dot => "DOT"@,
        TokenType::Minus => "MINUS"@,
        TokenType::Plus => "PLUS"@,
        TokenType::Semicolon => "SEMICOLON"@,
        TokenType::Slash => "SLASH"@,
        TokenType::Star => "STAR"@,
        TokenType::Bang => "BANG"@,
        TokenType::Bang_Equal => "BANG_EQUAL"@,
        TokenType::Equal => "EQUAL"@,
        TokenType::Equal_Equal => "EQUAL_EQUAL"@,
        TokenType::Greater => "GREATER"@,
        TokenType::Greater_Equal => "GREATER_EQUAL"@,
        TokenType::Less => "LESS"@,
        TokenType::Less_Equal => "LESS_EQUAL"@,
        TokenType::Identifier => "IDENTIFIER"@,
        TokenType::String => "STRING"@,
        TokenType::Number => "NUMBER"@,
        TokenType::And => "AND"@,
        TokenType::Class => "CLASS"@,
        TokenType::Else => "ELSE"@,
        TokenType::False => "FALSE"@,
        TokenType::Fun => "FUN"@,
        TokenType::For => "FOR"@,
        TokenType::If => "IF"@,
        TokenType::Nil => "NIL"@,
        TokenType::Or => "OR"@,
        TokenType::Print => "PRINT"@,
        TokenType::Return => "RETURN"@,
        TokenType::Super => "SUPER"@,
        TokenType::This => "THIS"@,
        TokenType::True => "TRUE"@,
        TokenType::Var => "VAR"@,
        TokenType::While => "WHILE"@,
        TokenType::EOF => "EOF"@,
    }
}

impl TokenType {
    /// The name under which the kind is written out (`LEFT_PAREN`, `EOF`).
    pub fn name(&self) -> (r: &'static str)
        ensures
            r@ == kind_name(*self),
    {
        match self {
            TokenType::Left_Paren => "LEFT_PAREN",
            TokenType::Right_Paren => "RIGHT_PAREN",
            TokenType::Left_Brace => "LEFT_BRACE",
            TokenType::Right_Brace => "RIGHT_BRACE",
            TokenType::Comma => "COMMA",
            TokenType::Dot => "DOT",
            TokenType::Minus => "MINUS",
            TokenType::Plus => "PLUS",
            TokenType::Semicolon => "SEMICOLON",
            TokenType::Slash => "SLASH",
            TokenType::Star => "STAR",
            TokenType::Bang => "BANG",
            TokenType::Bang_Equal => "BANG_EQUAL",
            TokenType::Equal => "EQUAL",
            TokenType::Equal_Equal => "EQUAL_EQUAL",
            TokenType::Greater => "GREATER",
            TokenType::Greater_Equal => "GREATER_EQUAL",
            TokenType::Less => "LESS",
            TokenType::Less_Equal => "LESS_EQUAL",
            TokenType::Identifier => "IDENTIFIER",
            TokenType::String => "STRING",
            TokenType::Number => "NUMBER",
            TokenType::And => "AND",
            TokenType::Class => "CLASS",
            TokenType::Else => "ELSE",
            TokenType::False => "FALSE",
            TokenType::Fun => "FUN",
            TokenType::For => "FOR",
            TokenType::If => "IF",
            TokenType::Nil => "NIL",
            TokenType::Or => "OR",
            TokenType::Print => "PRINT",
            TokenType::Return => "RETURN",
            TokenType::Super => "SUPER",
            TokenType::This => "THIS",
            TokenType::True => "TRUE",
            TokenType::Var => "VAR",
            TokenType::While => "WHILE",
            TokenType::EOF => "EOF",
        }
    }
}

/// The value that a literal token carries.
#[derive(Debug)]
pub enum Literal {
    Str(String),
    Num(Number),
    Nil,
}

/// A literal value as the contracts see it.
pub enum LiteralView {
    Str(Seq<char>),
    Num(Rat),
    Nil,
}

impl View for Literal {
    type V = LiteralView;

    open spec fn view(&self) -> LiteralView {
        match self {
            Literal::Str(s) => LiteralView::Str(s@),
            Literal::Num(n) => LiteralView::Num(n@),
            Literal::Nil => LiteralView::Nil,
        }
    }
}

impl Clone for Literal {
    fn clone(&self) -> (r: Self)
        ensures
            r == *self,
    {
        match self {
            Literal::Str(s) => Literal::Str(s.clone()),
            Literal::Num(n) => Literal::Num(n.clone()),
            Literal::Nil => Literal::Nil,
        }
    }
}

#[derive(Debug)]
pub struct Token {
    pub token_type: TokenType,
    pub lexeme: String,
    pub literal: Literal,
    pub line: usize,
}

impl Clone for Token {
    fn clone(&self) -> (r: Self)
        ensures
            r == *self,
    {
        Token {
            token_type: self.token_type,
            lexeme: self.lexeme.clone(),
            literal: self.literal.clone(),
            line: self.line,
        }
    }
}

/// A token as the contracts see it.
pub struct TokenView {
    pub kind: TokenType,
    pub lexeme: Seq<char>,
    pub literal: LiteralView,
    pub line: int,
}

impl View for Token {
    type V = TokenView;

    open spec fn view(&self) -> TokenView {
        TokenView {
            kind: self.token_type,
            lexeme: self.lexeme@,
            literal: self.literal@,
            line: self.line as int,
        }
    }
}

/// The views of a sequence of tokens.
pub open spec fn token_views(ts: Seq<Token>) -> Seq<TokenView> {
    ts.map_values(|t: Token| t@)
}

/// The text that stands for a literal when a token is written out.
pub open spec fn literal_text(l: LiteralView) -> Seq<char> {
    match l {
        LiteralView::Str(s) => s,
        LiteralView::Num(n) => rat_text(n),
        LiteralView::Nil => "null"@,
    }
}

impl Token {
    pub fn new(token_type: TokenType, lexeme: String, literal: Literal, line: usize) -> (r: Token)
        ensures
            r.token_type == token_type,
            r.lexeme == lexeme,
            r.literal == literal,
            r.line == line,
    {
        Token { token_type, lexeme, literal, line }
    }

    /// The token as one line of output: kind, lexeme and literal, separated
    /// by single spaces (`NUMBER 42 42.0`, `LEFT_PAREN ( null`).
    pub fn to_text(&self) -> (s: String)
        ensures
            s@ == kind_name(self.token_type) + " "@ + self.lexeme@ + " "@ + literal_text(
                self.literal@,
            ),
    {
        let mut s = String::from_str(self.token_type.name());
        s.append(" ");
        push_text(&mut s, &self.lexeme);
        s.append(" ");
        match &self.literal {
            Literal::Str(v) => push_text(&mut s, v),
            Literal::Num(n) => {
                let t = n.to_text();
                push_text(&mut s, &t);
            },
            Literal::Nil => s.append("null"),
        }
        s
    }
}

} // verus!
