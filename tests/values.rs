use codecraftersinterpreter::environment::Environment;
use codecraftersinterpreter::number::Number;
use codecraftersinterpreter::object::Object;
use codecraftersinterpreter::runtime_error::InterpreterError;
use codecraftersinterpreter::token::{Literal, Token, TokenType};

fn name(text: &str) -> Token {
    Token::new(TokenType::Identifier, text.to_string(), Literal::Nil, 3)
}

#[test]
fn number_text() {
    assert_eq!(Number::from_int(99).to_text(), "99.0");
    assert_eq!(Number::ratio(199, 2).to_text(), "99.5");
    assert_eq!(Number::ratio(-1, 3).to_text(), "-0.33");
    assert_eq!(Number::ratio(1, 8).to_text(), "0.12");
    assert_eq!(Number::ratio(3, 8).to_text(), "0.38");
    assert_eq!(Number::ratio(-12, 4).to_text(), "-3.0");
    assert_eq!(Number::ratio(-1, 1000).to_text(), "-0");
    assert_eq!(Number::ratio(2675, 1000).to_text(), "2.68");
    assert_eq!(Number::ratio(1, 200).to_text(), "0");
    assert_eq!(Number::ratio(3, 200).to_text(), "0.02");
    assert_eq!(Number::ratio(999, 1000).to_text(), "1");
}

#[test]
fn number_arithmetic() {
    let a = Number::ratio(1, 2);
    let b = Number::ratio(1, 3);
    assert!(a.add(&b).equals(&Number::ratio(5, 6)));
    assert!(a.sub(&b).equals(&Number::ratio(1, 6)));
    assert!(a.mul(&b).equals(&Number::ratio(1, 6)));
    assert!(a.div(&b).equals(&Number::ratio(3, 2)));
    assert!(a.neg().equals(&Number::ratio(-1, 2)));
    assert!(b.less(&a));
    assert!(!a.less(&a));
    assert!(a.neg().less(&b.neg().neg()));
    assert!(!a.less(&a.neg()));
    assert!(Number::ratio(2, 4).equals(&a));
    assert!(Number::from_int(0).is_zero());
    assert!(Number::from_int(0).neg().equals(&Number::from_int(0)));
    assert!(!Number::from_int(0).neg().less(&Number::from_int(0)));
    assert_eq!(Number::from_int(i64::MAX).add(&Number::from_int(1)).to_text(), "9223372036854775808.0");
    assert_eq!(Number::from_int(i64::MIN).neg().to_text(), "9223372036854775808.0");
    assert_eq!(Number::from_int(i64::MIN).mul(&Number::from_int(i64::MIN)).to_text(), "85070591730234615865843651857942052864.0");
}

#[test]
fn object_equality_and_text() {
    assert_eq!(Object::Number(Number::from_int(1)), Object::Number(Number::ratio(2, 2)));
    assert_ne!(Object::String("1".to_string()), Object::Number(Number::from_int(1)));
    assert_eq!(Object::Nil, Object::Nil);
    assert_eq!(Object::Bool(true).to_text(), "true");
    assert_eq!(Object::Nil.to_text(), "nil");
    assert!(!Object::Nil.is_truthy());
    assert!(Object::Number(Number::from_int(0)).is_truthy());
    assert!(Object::Bool(true).as_number().is_err());
    assert_eq!(Object::Bool(true).as_number().unwrap_err(), "Operand must be a number.");
}

#[test]
fn environment_define_get_assign() {
    let mut global = Environment::new();
    global.define("a".to_string(), Object::Number(Number::from_int(1)));
    let mut inner = Environment::from_enclosing(global);
    inner.define("b".to_string(), Object::Bool(true));
    assert_eq!(inner.get(&name("a")).unwrap(), Object::Number(Number::from_int(1)));
    assert!(inner.assign(&name("a"), Object::Nil).is_ok());
    assert_eq!(inner.get(&name("a")).unwrap(), Object::Nil);
    match inner.assign(&name("c"), Object::Nil) {
        Err(InterpreterError::UndefinedVariable { name, line }) => {
            assert_eq!(name, "c");
            assert_eq!(line, 3);
        },
        other => panic!("unexpected {:?}", other),
    }
    assert!(inner.get(&name("c")).is_err());
    let outer = inner.into_enclosing();
    assert!(outer.get(&name("b")).is_err());
    assert_eq!(outer.get(&name("a")).unwrap(), Object::Nil);
}

#[test]
fn environment_by_distance() {
    let mut global = Environment::new();
    global.define("a".to_string(), Object::Number(Number::from_int(1)));
    let mut inner = Environment::from_enclosing(global);
    inner.define("a".to_string(), Object::Number(Number::from_int(2)));
    assert_eq!(inner.get_at(0, "a"), Some(Object::Number(Number::from_int(2))));
    assert_eq!(inner.get_at(1, "a"), Some(Object::Number(Number::from_int(1))));
    assert_eq!(inner.get_at(2, "a"), None);
    assert!(inner.ancestor(1).is_some());
    assert!(inner.ancestor(2).is_none());
    inner.assign_at(1, &name("a"), Object::Bool(false));
    assert_eq!(inner.get_at(1, "a"), Some(Object::Bool(false)));
    assert_eq!(inner.get(&name("a")).unwrap(), Object::Number(Number::from_int(2)));
    inner.assign_at(5, &name("a"), Object::Nil);
    assert_eq!(inner.get_at(1, "a"), Some(Object::Bool(false)));
}
