use codecraftersinterpreter::scanner::Scanner;
use codecraftersinterpreter::token::{Literal, Token, TokenType};
use codecraftersinterpreter::tokenizer::{is_alpha, is_alphanumeric, tokenize};
use codecraftersinterpreter::tokenizer_error::TokenizerError;

fn kinds(tokens: &[Token]) -> Vec<TokenType> {
    tokens.iter().map(|t| t.token_type).collect()
}

fn lines(tokens: &[Token]) -> Vec<String> {
    tokens.iter().map(|t| t.to_text()).collect()
}

#[test]
fn punctuation_and_operators() {
    let (tokens, errors) = tokenize(b"(){};,+-*!===<=>=!=<>/.");
    assert!(errors.is_empty());
    assert_eq!(
        kinds(&tokens),
        vec![
            TokenType::Left_Paren,
            TokenType::Right_Paren,
            TokenType::Left_Brace,
            TokenType::Right_Brace,
            TokenType::Semicolon,
            TokenType::Comma,
            TokenType::Plus,
            TokenType::Minus,
            TokenType::Star,
            TokenType::Bang_Equal,
            TokenType::Equal_Equal,
            TokenType::Less_Equal,
            TokenType::Greater_Equal,
            TokenType::Bang_Equal,
            TokenType::Less,
            TokenType::Greater,
            TokenType::Slash,
            TokenType::Dot,
            TokenType::EOF,
        ]
    );
}

#[test]
fn empty_input_gives_only_eof() {
    let (tokens, errors) = tokenize(b"");
    assert!(errors.is_empty());
    assert_eq!(lines(&tokens), vec!["EOF  null".to_string()]);
    assert_eq!(tokens[0].line, 1);
}

#[test]
fn token_lines_are_written_with_kind_lexeme_and_literal() {
    let (tokens, errors) = tokenize(b"var name = \"hi\"; 42 1.50 (");
    assert!(errors.is_empty());
    assert_eq!(
        lines(&tokens),
        vec![
            "VAR var null",
            "IDENTIFIER name null",
            "EQUAL = null",
            "STRING \"hi\" hi",
            "SEMICOLON ; null",
            "NUMBER 42 42.0",
            "NUMBER 1.50 1.5",
            "LEFT_PAREN ( null",
            "EOF  null",
        ]
    );
}

#[test]
fn keywords_and_identifiers() {
    let (tokens, errors) = tokenize(
        b"and class else false for fun if nil or print return super this true var while _x9 orchid",
    );
    assert!(errors.is_empty());
    assert_eq!(
        kinds(&tokens),
        vec![
            TokenType::And,
            TokenType::Class,
            TokenType::Else,
            TokenType::False,
            TokenType::For,
            TokenType::Fun,
            TokenType::If,
            TokenType::Nil,
            TokenType::Or,
            TokenType::Print,
            TokenType::Return,
            TokenType::Super,
            TokenType::This,
            TokenType::True,
            TokenType::Var,
            TokenType::While,
            TokenType::Identifier,
            TokenType::Identifier,
            TokenType::EOF,
        ]
    );
    assert_eq!(tokens[16].lexeme, "_x9");
    assert_eq!(tokens[17].lexeme, "orchid");
}

#[test]
fn comments_and_whitespace_are_skipped_and_lines_counted() {
    let (tokens, errors) = tokenize(b"// a comment (\n\t1 / 2 // more\r\n\n x");
    assert!(errors.is_empty());
    assert_eq!(
        kinds(&tokens),
        vec![TokenType::Number, TokenType::Slash, TokenType::Number, TokenType::Identifier, TokenType::EOF]
    );
    assert_eq!(tokens[0].line, 2);
    assert_eq!(tokens[3].line, 4);
    assert_eq!(tokens[4].line, 4);
}

#[test]
fn number_lexemes_stop_at_a_second_point() {
    let (tokens, errors) = tokenize(b"1.2.3 7.");
    assert!(errors.is_empty());
    assert_eq!(
        lines(&tokens),
        vec!["NUMBER 1.2 1.2", "DOT . null", "NUMBER 3 3.0", "NUMBER 7. 7.0", "EOF  null"]
    );
}

#[test]
fn number_literal_text_is_rounded_to_two_places() {
    let (tokens, errors) = tokenize(b"0.125 2.999 10.40 99.50 0.001");
    assert!(errors.is_empty());
    let texts: Vec<String> = lines(&tokens);
    assert_eq!(texts[0], "NUMBER 0.125 0.12");
    assert_eq!(texts[1], "NUMBER 2.999 3");
    assert_eq!(texts[2], "NUMBER 10.40 10.4");
    assert_eq!(texts[3], "NUMBER 99.50 99.5");
    assert_eq!(texts[4], "NUMBER 0.001 0");
}

#[test]
fn long_number_literals_are_exact() {
    let (tokens, errors) = tokenize(b"99999999999999999999 0.0000000000000000000 1.0000000000000000001");
    assert!(errors.is_empty());
    assert_eq!(
        lines(&tokens),
        vec![
            "NUMBER 99999999999999999999 99999999999999999999.0",
            "NUMBER 0.0000000000000000000 0.0",
            "NUMBER 1.0000000000000000001 1",
            "EOF  null",
        ]
    );
}

#[test]
fn unterminated_string_gives_one_error_and_no_string_token() {
    let (tokens, errors) = tokenize(b"\"abc");
    assert_eq!(errors, vec![TokenizerError::UnterminatedString { line: 1 }]);
    assert_eq!(kinds(&tokens), vec![TokenType::EOF]);
}

#[test]
fn unterminated_string_reports_its_first_line() {
    let (tokens, errors) = tokenize(b"x\n\"ab\ncd\n");
    assert_eq!(errors, vec![TokenizerError::UnterminatedString { line: 2 }]);
    assert_eq!(kinds(&tokens), vec![TokenType::Identifier, TokenType::EOF]);
    assert_eq!(tokens[1].line, 4);
}

#[test]
fn multiline_string_keeps_its_content() {
    let (tokens, errors) = tokenize("\"a\nb ü\" x".as_bytes());
    assert!(errors.is_empty());
    assert_eq!(tokens[0].token_type, TokenType::String);
    assert_eq!(tokens[0].lexeme, "\"a\nb ü\"");
    match &tokens[0].literal {
        Literal::Str(s) => assert_eq!(s, "a\nb ü"),
        other => panic!("unexpected literal {:?}", other),
    }
    assert_eq!(tokens[1].line, 2);
}

#[test]
fn invalid_utf8_in_a_string() {
    let (tokens, errors) = tokenize(b"\"a\xffb\" 1");
    assert_eq!(errors, vec![TokenizerError::InvalidUTF8String { line: 1 }]);
    assert_eq!(kinds(&tokens), vec![TokenType::Number, TokenType::EOF]);
}

#[test]
fn unexpected_characters_are_reported_and_skipped() {
    let (tokens, errors) = tokenize(b"1 @\n# 2");
    assert_eq!(
        errors,
        vec![
            TokenizerError::UnexpectedCharacter { line: 1, ch: '@' },
            TokenizerError::UnexpectedCharacter { line: 2, ch: '#' },
        ]
    );
    assert_eq!(kinds(&tokens), vec![TokenType::Number, TokenType::Number, TokenType::EOF]);
}

#[test]
fn lexemes_rebuild_the_source_without_whitespace_and_comments() {
    let src = "var  x = (1 + 2.5) ;// note\n print \"a b\"  >= x;";
    let (tokens, errors) = tokenize(src.as_bytes());
    assert!(errors.is_empty());
    let joined: String = tokens.iter().map(|t| t.lexeme.as_str()).collect();
    assert_eq!(joined, "varx=(1+2.5);print\"a b\">=x;");
}

#[test]
fn letter_classes() {
    assert!(is_alpha(&b'a'));
    assert!(is_alpha(&b'Z'));
    assert!(is_alpha(&b'_'));
    assert!(!is_alpha(&b'7'));
    assert!(is_alphanumeric(&b'7'));
    assert!(!is_alphanumeric(&b'-'));
}

#[test]
fn scanner_keeps_the_errors_of_its_scan() {
    let mut scanner = Scanner::new("print 1; $".to_string());
    let tokens = scanner.scan_tokens();
    assert_eq!(
        kinds(&tokens),
        vec![TokenType::Print, TokenType::Number, TokenType::Semicolon, TokenType::EOF]
    );
    assert_eq!(scanner.errors(), &vec![TokenizerError::UnexpectedCharacter { line: 1, ch: '$' }]);
}
