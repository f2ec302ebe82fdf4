use codecraftersinterpreter::ast_printer::AstPrinter;
use codecraftersinterpreter::parser::{parser_for_source, ParseError, ParseErrorKind, Parser, Stmt};
use codecraftersinterpreter::tokenizer_error::TokenizerError;
use codecraftersinterpreter::tokenizer::tokenize;

fn parse(src: &str, require_semicolon: bool) -> Result<Vec<Stmt>, ParseError> {
    let (tokens, errors) = tokenize(src.as_bytes());
    assert!(errors.is_empty());
    let mut parser = Parser::new(tokens, require_semicolon);
    parser.parse()
}

fn printed(src: &str, require_semicolon: bool) -> Vec<String> {
    let statements = parse(src, require_semicolon).expect("the program parses");
    let printer = AstPrinter;
    statements.iter().map(|s| printer.print_stmt(s)).collect()
}

#[test]
fn precedence_and_associativity() {
    assert_eq!(printed("1 + 2 * 3 - 4 / 5", false), vec!["(- (+ 1.0 (* 2.0 3.0)) (/ 4.0 5.0))"]);
    assert_eq!(printed("1 - 2 - 3", false), vec!["(- (- 1.0 2.0) 3.0)"]);
    assert_eq!(printed("a or b and c == d < e", false), vec!["(or a (and b (== c (< d e))))"]);
}

#[test]
fn unary_grouping_and_literals() {
    assert_eq!(printed("!-(2.5)", false), vec!["(! (- (group 2.5)))"]);
    assert_eq!(printed("true != nil", false), vec!["(!= true nil)"]);
    assert_eq!(printed("\"hi there\" + false", false), vec!["(+ hi there false)"]);
}

#[test]
fn assignment_is_right_associative() {
    assert_eq!(printed("a = b = 3", false), vec!["(assign a (assign b 3.0))"]);
}

#[test]
fn declarations_blocks_and_prints() {
    assert_eq!(
        printed("var x = 5; var y; { print x; x; }", true),
        vec!["(var x 5.0)", "(var y nil)", "(block (print x) x)"]
    );
    assert_eq!(printed("{}", true), vec!["(block)"]);
}

#[test]
fn semicolons_are_optional_without_the_requirement() {
    assert_eq!(printed("print 1 print 2; 3", false), vec!["(print 1.0)", "(print 2.0)", "3.0"]);
}

#[test]
fn invalid_assignment_target_is_a_parse_error() {
    let err = parse("1 = 2;", true).unwrap_err();
    assert_eq!(err, ParseError { kind: ParseErrorKind::InvalidAssignmentTarget, line: 1 });
    assert_eq!(err.kind.message(), "Invalid assignment target.");
}

#[test]
fn missing_closing_paren() {
    let err = parse("(1 + 2\n;", true).unwrap_err();
    assert_eq!(err, ParseError { kind: ParseErrorKind::ExpectRightParen, line: 2 });
}

#[test]
fn missing_closing_brace() {
    let err = parse("{ print 1;\n", true).unwrap_err();
    assert_eq!(err, ParseError { kind: ParseErrorKind::ExpectRightBrace, line: 2 });
}

#[test]
fn missing_expression() {
    let err = parse("print ;", true).unwrap_err();
    assert_eq!(err, ParseError { kind: ParseErrorKind::ExpectExpression, line: 1 });
}

#[test]
fn missing_variable_name() {
    let err = parse("var 1 = 2;", true).unwrap_err();
    assert_eq!(err, ParseError { kind: ParseErrorKind::ExpectVariableName, line: 1 });
}

#[test]
fn missing_semicolons_when_required() {
    assert_eq!(
        parse("print 1", true).unwrap_err(),
        ParseError { kind: ParseErrorKind::ExpectSemicolonAfterValue, line: 1 }
    );
    assert_eq!(
        parse("1 + 2", true).unwrap_err(),
        ParseError { kind: ParseErrorKind::ExpectSemicolonAfterExpression, line: 1 }
    );
    assert_eq!(
        parse("var a = 1\nprint a;", true).unwrap_err(),
        ParseError { kind: ParseErrorKind::ExpectSemicolonAfterVariable, line: 2 }
    );
}

#[test]
fn first_error_stops_the_parse() {
    let err = parse("print 1; 1 = 2; )", true).unwrap_err();
    assert_eq!(err.kind, ParseErrorKind::InvalidAssignmentTarget);
}

#[test]
fn literals_take_their_values_from_the_lexemes() {
    assert_eq!(printed("007.250 \"a b\" \"\"", false), vec!["7.25", "a b", ""]);
}

#[test]
fn parser_for_source_gives_scan_problems() {
    let (mut parser, errors) = parser_for_source(b"print 1 + 2; @", true);
    assert_eq!(errors, vec![TokenizerError::UnexpectedCharacter { line: 1, ch: '@' }]);
    let printer = AstPrinter;
    let statements = parser.parse().unwrap();
    assert_eq!(printer.print_stmt(&statements[0]), "(print (+ 1.0 2.0))");
}
