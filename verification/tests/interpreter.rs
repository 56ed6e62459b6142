//! Tests for the interpreter pipeline: lexer, parser, evaluator, and the
//! display form.

use sch_rs::Env;
use sch_rs::Evalator;
use sch_rs::Node;
use sch_rs::Parser;
use sch_rs::Repl;
use sch_rs::RuntimeError;
use sch_rs::SyntaxError;
use sch_rs::Token;
use sch_rs::Value;
use sch_rs::eval;
use sch_rs::lex;
use sch_rs::lex_test_template;
use sch_rs::parse_test_template;

fn insert_into_env(mut env: Env, vars: &Vec<(String, Value)>) -> Env {
    for (key, value) in vars {
        env.define(0, key, value).unwrap();
    }
    env
}

fn test_template(nodes: Vec<Node>, exp: Value, mut env: Env) {
    match eval(&nodes, &mut env) {
        Ok(v) => assert_eq!(v, exp),
        _ => println!("Test failure: evaluating, expected another value"),
    }
}

/// Run a whole source text through lexer, parser and a fresh evaluator.
fn run(src: &str) -> Result<Value, RuntimeError> {
    let tokens = lex(&src.to_string()).unwrap();
    let nodes = Parser::parse(&tokens).unwrap();
    let mut ev = Evalator::new();
    ev.eval(&nodes)
}

#[test]
fn eval_simple_integer() {
    test_template(vec![Node::Integer(1)], Value::Integer(1), Env::new_root());
}

#[test]
fn eval_simple_iden() {
    test_template(
        vec![Node::Identifier("x".to_string())],
        Value::Integer(1),
        insert_into_env(
            Env::new_root(),
            &vec![("x".to_string(), Value::Integer(1))],
        ),
    );
}

// (define x 2) x
#[test]
fn eval_define() {
    let def_nodes = vec![
        Node::List(vec![
            Node::Identifier("define".to_string()),
            Node::Identifier("x".to_string()),
            Node::Integer(2),
        ]),
        Node::Identifier("x".to_string()),
    ];
    test_template(def_nodes, Value::Integer(2), Env::new_root());
}

// (let ([x 2]) x)
#[test]
fn eval_let() {
    let nodes = vec![Node::List(vec![
        Node::Identifier("let".to_string()),
        Node::List(vec![Node::List(vec![
            Node::Identifier("x".to_string()),
            Node::Integer(2),
        ])]),
        Node::Identifier("x".to_string()),
    ])];
    test_template(nodes, Value::Integer(2), Env::new_root());
}

#[test]
fn parse_int() {
    let input = vec![Token::Integer(1234)];
    let exp = vec![Node::Integer(1234)];
    assert!(parse_test_template(input, exp));
}

#[test]
fn parse_paren_int() {
    let input = vec![Token::OpenParen, Token::Integer(1234), Token::CloseParen];
    let exp = vec![Node::List(vec![Node::Integer(1234)])];
    assert!(parse_test_template(input, exp));
}

#[test]
fn lex_simple_number() {
    let test_input = "12345".to_string();
    assert_eq!(lex(&test_input).unwrap(), vec![Token::Integer(12345)]);
}

#[test]
fn lex_simple_identifier() {
    let test_input = "hello".to_string();
    assert_eq!(
        lex(&test_input).unwrap(),
        vec![Token::Identifier("hello".to_string())]
    );
}

#[test]
fn lex_template_accepts_expected_tokens() {
    assert!(lex_test_template(
        "12345".to_string(),
        vec![Token::Integer(12345)]
    ));
    assert!(!lex_test_template(
        "12345".to_string(),
        vec![Token::Integer(54321)]
    ));
}

#[test]
fn lex_operators_and_parens() {
    assert_eq!(
        lex(&"(+ a1 b)".to_string()).unwrap(),
        vec![
            Token::OpenParen,
            Token::Identifier("+".to_string()),
            Token::Identifier("a1".to_string()),
            Token::Identifier("b".to_string()),
            Token::CloseParen,
        ]
    );
}

#[test]
fn lex_rejects_decimal_literal() {
    assert_eq!(
        lex(&"1.5".to_string()),
        Err(SyntaxError::MalformedNumber)
    );
}

#[test]
fn lex_rejects_huge_literal() {
    assert_eq!(
        lex(&"99999999999999999999999999".to_string()),
        Err(SyntaxError::MalformedNumber)
    );
}

// Lexing then parsing a parenthesized integer literal yields the same
// integer value.
#[test]
fn integer_literal_round_trip() {
    assert_eq!(run("12345"), Ok(Value::Integer(12345)));
    assert_eq!(
        run("(12345)"),
        Err(RuntimeError::ApplicationError)
    );
    let tokens = lex(&"(12345)".to_string()).unwrap();
    let nodes = Parser::parse(&tokens).unwrap();
    assert_eq!(nodes, vec![Node::List(vec![Node::Integer(12345)])]);
}

// (define x 2) x evaluates to 2; a second define of x in the same
// environment is a duplicate binding.
#[test]
fn define_then_redefine() {
    let mut ev = Evalator::new();
    let tokens = lex(&"(define x 2) x".to_string()).unwrap();
    let nodes = Parser::parse(&tokens).unwrap();
    assert_eq!(ev.eval(&nodes), Ok(Value::Integer(2)));

    let tokens2 = lex(&"(define x 3)".to_string()).unwrap();
    let nodes2 = Parser::parse(&tokens2).unwrap();
    assert_eq!(ev.eval(&nodes2), Err(RuntimeError::DuplicateBinding));
}

// (let ((x 2)) x) evaluates to 2 and x stays unbound outside the let.
#[test]
fn let_binding_does_not_leak() {
    let mut env = Env::new_root();
    let tokens = lex(&"(let ((x 2)) x)".to_string()).unwrap();
    let nodes = Parser::parse(&tokens).unwrap();
    assert_eq!(eval(&nodes, &mut env), Ok(Value::Integer(2)));
    assert_eq!(
        env.get(0, &"x".to_string()),
        Err(RuntimeError::UnboundVariable)
    );
}

#[test]
fn arithmetic_folds() {
    assert_eq!(run("(+ 1 2 3)"), Ok(Value::Integer(6)));
    assert_eq!(run("(* 2 3 4)"), Ok(Value::Integer(24)));
    assert_eq!(run("(+ 7)"), Ok(Value::Integer(7)));
    assert_eq!(run("(+ 1 (* 2 3))"), Ok(Value::Integer(7)));
}

#[test]
fn arithmetic_overflow_is_reported() {
    assert_eq!(
        run("(+ 18446744073709551615 1)"),
        Err(RuntimeError::Overflow)
    );
    assert_eq!(
        run("(* 4294967296 4294967296)"),
        Err(RuntimeError::Overflow)
    );
}

#[test]
fn arithmetic_type_error() {
    assert_eq!(
        run("(+ 1 (lambda (x) x))"),
        Err(RuntimeError::TypeError)
    );
}

#[test]
fn arithmetic_needs_an_operand() {
    assert_eq!(run("(+)"), Err(RuntimeError::MalformedForm));
}

// ((lambda (x) (+ x 1)) 5) applies a closure; the parameter does not leak
// into the defining environment.
#[test]
fn lambda_application() {
    let mut env = Env::new_root();
    let tokens = lex(&"((lambda (x) (+ x 1)) 5)".to_string()).unwrap();
    let nodes = Parser::parse(&tokens).unwrap();
    assert_eq!(eval(&nodes, &mut env), Ok(Value::Integer(6)));
    assert_eq!(
        env.get(0, &"x".to_string()),
        Err(RuntimeError::UnboundVariable)
    );
}

// A closure returned from a call keeps access to its captured
// environment after that call has returned.
#[test]
fn closure_keeps_captured_environment() {
    let make_adder = Node::List(vec![
        Node::Identifier("define".to_string()),
        Node::List(vec![
            Node::Identifier("make-adder".to_string()),
            Node::Identifier("n".to_string()),
        ]),
        Node::List(vec![
            Node::Identifier("lambda".to_string()),
            Node::List(vec![Node::Identifier("x".to_string())]),
            Node::List(vec![
                Node::Identifier("+".to_string()),
                Node::Identifier("x".to_string()),
                Node::Identifier("n".to_string()),
            ]),
        ]),
    ]);
    let call = Node::List(vec![
        Node::List(vec![
            Node::Identifier("make-adder".to_string()),
            Node::Integer(3),
        ]),
        Node::Integer(4),
    ]);
    let mut ev = Evalator::new();
    assert_eq!(ev.eval(&vec![make_adder, call]), Ok(Value::Integer(7)));
}

// A bare reference to an undefined name fails and never yields a value.
#[test]
fn unbound_variable_fails() {
    assert_eq!(run("nosuchname"), Err(RuntimeError::UnboundVariable));
}

// "(+ 1 2" is unterminated; "+ 1 2)" has an unmatched close paren.
#[test]
fn syntax_errors_from_parens() {
    let repl = Repl {};
    assert_eq!(
        repl.interp(&"(+ 1 2".to_string()),
        Err(SyntaxError::UnterminatedList)
    );
    assert_eq!(
        repl.interp(&"+ 1 2)".to_string()),
        Err(SyntaxError::UnmatchedCloseParen)
    );
}

// Applying a closure of one parameter to two arguments is an arity
// mismatch, not a silent drop of the extra argument.
#[test]
fn closure_arity_mismatch() {
    assert_eq!(
        run("((lambda (x) x) 1 2)"),
        Err(RuntimeError::ArityMismatch)
    );
    assert_eq!(run("((lambda (x y) x) 1)"), Err(RuntimeError::ArityMismatch));
}

#[test]
fn application_of_non_procedure_fails() {
    assert_eq!(run("(1 2)"), Err(RuntimeError::ApplicationError));
    assert_eq!(run("()"), Err(RuntimeError::ApplicationError));
}

#[test]
fn malformed_special_forms() {
    assert_eq!(run("(define x)"), Err(RuntimeError::MalformedForm));
    assert_eq!(run("(let 5 x)"), Err(RuntimeError::MalformedForm));
    assert_eq!(run("(lambda 5 x)"), Err(RuntimeError::MalformedForm));
}

#[test]
fn empty_program_evaluates_to_unit() {
    assert_eq!(run(""), Ok(Value::Unit));
}

#[test]
fn sequence_keeps_last_value() {
    assert_eq!(run("1 2 3"), Ok(Value::Integer(3)));
}

// Shadowing in a child scope is allowed even though redefinition in the
// same scope is rejected.
#[test]
fn shadowing_in_child_scope() {
    let mut env = Env::new_root();
    let tokens = lex(&"(define x 1) (let ((x 2)) x)".to_string()).unwrap();
    let nodes = Parser::parse(&tokens).unwrap();
    assert_eq!(eval(&nodes, &mut env), Ok(Value::Integer(2)));
    assert_eq!(env.get(0, &"x".to_string()), Ok(Value::Integer(1)));
}

#[test]
fn set_overwrites_an_existing_binding() {
    let mut env = Env::new_root();
    env.define(0, "x", &Value::Integer(1)).unwrap();
    assert_eq!(env.set(0, &"x".to_string(), &Value::Integer(5)), Ok(()));
    assert_eq!(env.get(0, &"x".to_string()), Ok(Value::Integer(5)));
    assert_eq!(
        env.set(0, &"y".to_string(), &Value::Integer(5)),
        Err(RuntimeError::UnboundVariable)
    );
}

#[test]
fn define_returns_the_bound_value() {
    assert_eq!(run("(define x 41)"), Ok(Value::Integer(41)));
}

#[test]
fn display_forms() {
    assert_eq!(Value::Unit.display_string(), "()");
    assert_eq!(Value::Integer(0).display_string(), "0");
    assert_eq!(Value::Integer(42).display_string(), "42");
    assert_eq!(
        Value::Symbol("hello".to_string()).display_string(),
        "hello"
    );
    assert_eq!(
        Value::List(vec![
            Value::Integer(1),
            Value::Integer(2),
            Value::Symbol("x".to_string()),
        ])
        .display_string(),
        "(1 2 x)"
    );
    let proc = run("(lambda (x) x)").unwrap();
    assert_eq!(proc.display_string(), "#procedure");
}

#[test]
fn error_messages_exist() {
    assert_eq!(RuntimeError::UnboundVariable.msg(), "used before define");
    assert_eq!(SyntaxError::MalformedNumber.msg(), "malformed number literal");
}
