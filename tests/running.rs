use codecraftersinterpreter::interpreter::Interpreter;
use codecraftersinterpreter::parser::Parser;
use codecraftersinterpreter::runtime_error::InterpreterError;
use codecraftersinterpreter::tokenizer::tokenize;

fn run(src: &str, evaluate_mode: bool) -> (Result<(), InterpreterError>, Vec<String>) {
    let (tokens, errors) = tokenize(src.as_bytes());
    assert!(errors.is_empty());
    let mut parser = Parser::new(tokens, !evaluate_mode);
    let statements = parser.parse().expect("the program parses");
    let mut interpreter = Interpreter::new(evaluate_mode);
    let result = interpreter.interpret(statements);
    (result, interpreter.output().clone())
}

fn output_of(src: &str) -> Vec<String> {
    let (result, output) = run(src, false);
    assert!(result.is_ok(), "unexpected {:?}", result);
    output
}

#[test]
fn inner_declaration_leaves_the_outer_binding() {
    assert_eq!(output_of("var x = 1; { var x = 2; print x; } print x;"), vec!["2.0", "1.0"]);
}

#[test]
fn assignment_in_a_block_reaches_the_enclosing_binding() {
    assert_eq!(output_of("var x = 1; { x = 2; } print x;"), vec!["2.0"]);
}

#[test]
fn undefined_variable_fails_and_prints_nothing() {
    let (result, output) = run("print y;", false);
    match result {
        Err(InterpreterError::UndefinedVariable { name, line }) => {
            assert_eq!(name, "y");
            assert_eq!(line, 1);
        },
        other => panic!("unexpected {:?}", other),
    }
    assert!(output.is_empty());
}

#[test]
fn assignment_to_an_undefined_variable_fails() {
    let (result, _) = run("z = 1;", false);
    assert!(matches!(result, Err(InterpreterError::UndefinedVariable { ref name, line: 1 }) if name == "z"));
}

#[test]
fn division_by_zero_fails() {
    let (result, output) = run("1 / 0", true);
    assert!(matches!(result, Err(InterpreterError::DivisionByZero { line: 1 })));
    assert!(output.is_empty());
}

#[test]
fn string_concatenation_and_arithmetic() {
    assert_eq!(run("\"a\" + \"b\"", true).1, vec!["ab"]);
    assert!(matches!(run("\"a\" + 1", true).0, Err(InterpreterError::InvalidBinaryOperands { line: 1 })));
    assert_eq!(run("1 + 2", true).1, vec!["3.0"]);
}

#[test]
fn arithmetic_is_exact() {
    assert_eq!(
        output_of("print 10 - 4 * 2.5; print 1 / 3; print 2 / 3; print -7 / 2; print 0.1 + 0.2 == 0.3;"),
        vec!["0.0", "0.33", "0.67", "-3.5", "true"]
    );
}

#[test]
fn comparisons_need_numbers() {
    assert_eq!(output_of("print 1 < 2; print 2 <= 2; print 3 > 4; print 3 >= 4;"), vec![
        "true", "true", "false", "false",
    ]);
    assert!(matches!(run("\"a\" < \"b\"", true).0, Err(InterpreterError::InvalidBinaryOperands { line: 1 })));
}

#[test]
fn equality_never_coerces() {
    assert_eq!(
        output_of("print 1 == 1; print \"1\" == 1; print nil == nil; print nil != false; print true == true;"),
        vec!["true", "false", "true", "true", "true"]
    );
}

#[test]
fn truthiness_and_negation() {
    assert_eq!(output_of("print !nil; print !false; print !0; print !\"\"; print -(-3);"), vec![
        "true", "true", "false", "false", "3.0",
    ]);
    assert!(matches!(run("-\"x\"", true).0, Err(InterpreterError::InvalidUnaryOperand { line: 1 })));
}

#[test]
fn number_formatting() {
    assert_eq!(output_of("print 99.0; print 99.5; print 99.50; print 7;"), vec!["99.0", "99.5", "99.5", "7.0"]);
}

#[test]
fn numbers_have_no_size_limit() {
    assert_eq!(
        output_of(
            "print 9223372036854775807 + 1; print -(-9223372036854775807 - 1); print 9223372036854775807 / 0.5;"
        ),
        vec!["9223372036854775808.0", "9223372036854775808.0", "18446744073709551614.0"]
    );
}

#[test]
fn repeated_division_stays_exact() {
    let mut program = String::from("var x = 1;");
    for _ in 0..60 {
        program.push_str(" x = x / 3;");
    }
    for _ in 0..60 {
        program.push_str(" x = x * 3;");
    }
    program.push_str(" print x; print x == 1;");
    assert_eq!(output_of(&program), vec!["1.0", "true"]);
}

#[test]
fn logical_operators_give_an_operand() {
    assert_eq!(
        output_of("print nil or 2; print 1 or 2; print false and 3; print 1 and \"b\";"),
        vec!["2.0", "1.0", "false", "b"]
    );
}

#[test]
fn logical_operators_evaluate_both_operands() {
    let (result, _) = run("print true or undefined;", false);
    assert!(matches!(result, Err(InterpreterError::UndefinedVariable { ref name, line: 1 }) if name == "undefined"));
    assert_eq!(output_of("var a = 1; false and (a = 2); print a;"), vec!["2.0"]);
}

#[test]
fn evaluate_mode_echoes_expression_statements() {
    let (result, output) = run("var a = 2\na = a * 3\nprint a\n\"s\"\nnil", true);
    assert!(result.is_ok());
    assert_eq!(output, vec!["6.0", "6.0", "s", "nil"]);
}

#[test]
fn run_mode_does_not_echo() {
    assert_eq!(output_of("1 + 1; print \"x\";"), vec!["x"]);
}

#[test]
fn declaration_without_initializer_is_nil() {
    assert_eq!(output_of("var a; print a; var a = 3; print a;"), vec!["nil", "3.0"]);
}

#[test]
fn a_failing_block_still_leaves_its_scope() {
    let (tokens, _) = tokenize(b"var x = 1; { var x = 2; print y; }");
    let statements = Parser::new(tokens, true).parse().unwrap();
    let mut interpreter = Interpreter::new(false);
    assert!(interpreter.interpret(statements).is_err());
    let (tokens, _) = tokenize(b"print x;");
    let statements = Parser::new(tokens, true).parse().unwrap();
    assert!(interpreter.interpret(statements).is_ok());
    assert_eq!(interpreter.output(), &vec!["1.0".to_string()]);
}

#[test]
fn execution_stops_at_the_first_failure() {
    let (result, output) = run("print 1; print nil + 1; print 2;", false);
    assert!(matches!(result, Err(InterpreterError::InvalidBinaryOperands { line: 1 })));
    assert_eq!(output, vec!["1.0"]);
}
