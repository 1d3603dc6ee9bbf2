use nir::eval::{eval, predicate, read};
use nir::expr::expr_type;
use nir::format::{BinaryOp, Expr, Value, ValueType};

fn num(v: i32) -> Expr {
    Expr::Const { value: Value::I32(v) }
}
fn boolean(v: bool) -> Expr {
    Expr::Const { value: Value::Bool(v) }
}
fn string(v: &str) -> Expr {
    Expr::Const { value: Value::String(v.to_string()) }
}
fn var(n: &str) -> Expr {
    Expr::Var { name: n.to_string() }
}
fn bin(op: BinaryOp, l: Expr, r: Expr) -> Expr {
    Expr::Binary { op, left: Box::new(l), right: Box::new(r) }
}

#[test]
fn arithmetic_is_checked() {
    let none = vec![];
    assert!(matches!(eval(&bin(BinaryOp::Add, num(2), num(3)), &none, &none, "f/b/0"), Ok(Value::I32(5))));
    assert!(matches!(eval(&bin(BinaryOp::Div, num(-7), num(2)), &none, &none, "f/b/0"), Ok(Value::I32(-3))));
    assert!(matches!(eval(&bin(BinaryOp::Rem, num(-7), num(2)), &none, &none, "f/b/0"), Ok(Value::I32(-1))));
    let e = eval(&bin(BinaryOp::Add, num(i32::MAX), num(1)), &none, &none, "f/b/0").unwrap_err();
    assert_eq!((e.code.as_str(), e.location.as_str(), e.message.as_str()), ("E_ARITHMETIC", "f/b/0", "overflow or division by zero"));
    let e = eval(&bin(BinaryOp::Div, num(1), num(0)), &none, &none, "at").unwrap_err();
    assert_eq!(e.code, "E_ARITHMETIC");
    let e = eval(&bin(BinaryOp::Div, num(i32::MIN), num(-1)), &none, &none, "at").unwrap_err();
    assert_eq!(e.code, "E_ARITHMETIC");
}

#[test]
fn logic_short_circuits_before_reading_the_right_operand() {
    let none = vec![];
    assert!(matches!(eval(&bin(BinaryOp::And, boolean(false), var("unset")), &none, &none, "at"), Ok(Value::Bool(false))));
    assert!(matches!(eval(&bin(BinaryOp::Or, boolean(true), var("unset")), &none, &none, "at"), Ok(Value::Bool(true))));
    let e = eval(&bin(BinaryOp::And, boolean(true), var("unset")), &none, &none, "at").unwrap_err();
    assert_eq!((e.code.as_str(), e.message.as_str()), ("E_UNINITIALIZED", "unset"));
}

#[test]
fn strings_concatenate_and_compare_by_content() {
    let none = vec![];
    match eval(&bin(BinaryOp::Concat, string("ab"), string("cd")), &none, &none, "at") {
        Ok(Value::String(s)) => assert_eq!(s, "abcd"),
        other => panic!("{:?}", other),
    }
    assert!(matches!(eval(&bin(BinaryOp::Eq, string("x"), string("x")), &none, &none, "at"), Ok(Value::Bool(true))));
    assert!(matches!(eval(&bin(BinaryOp::Ne, num(1), boolean(true)), &none, &none, "at"), Ok(Value::Bool(true))));
    let long = "x".repeat(131072);
    let e = eval(&bin(BinaryOp::Concat, string(&long), string("y")), &none, &none, "at").unwrap_err();
    assert_eq!((e.code.as_str(), e.message.as_str()), ("E_LIMIT", "string length"));
}

#[test]
fn ill_typed_operands_fail_at_run_time() {
    let none = vec![];
    let e = eval(&Expr::Not { value: Box::new(num(1)) }, &none, &none, "at").unwrap_err();
    assert_eq!((e.code.as_str(), e.message.as_str()), ("E_TYPE", "not"));
    let e = eval(&bin(BinaryOp::Add, num(1), boolean(true)), &none, &none, "at").unwrap_err();
    assert_eq!((e.code.as_str(), e.message.as_str()), ("E_TYPE", "binary operands"));
}

#[test]
fn well_typed_expressions_evaluate_to_their_type() {
    let vars = vec![("score".to_string(), ValueType::I32), ("name".to_string(), ValueType::String)];
    let globals = vec![("score".to_string(), Value::I32(40)), ("name".to_string(), Value::String("Lin".to_string()))];
    let e = bin(BinaryOp::Lt, bin(BinaryOp::Mul, var("score"), num(2)), num(100));
    assert_eq!(expr_type(&e, &vars, "at").unwrap(), ValueType::Bool);
    assert_eq!(eval(&e, &vec![], &globals, "at").unwrap().ty(), ValueType::Bool);
    let e = bin(BinaryOp::Concat, var("name"), string("!"));
    assert_eq!(expr_type(&e, &vars, "at").unwrap(), ValueType::String);
    assert_eq!(eval(&e, &vec![], &globals, "at").unwrap().ty(), ValueType::String);
}

#[test]
fn locals_shadow_globals_and_writes_are_read_back() {
    let mut locals = vec![];
    let mut globals = vec![("score".to_string(), Value::I32(1))];
    nir::eval::write(&mut locals, &mut globals, "score", Value::I32(7));
    nir::eval::write(&mut locals, &mut globals, "tmp", Value::Bool(true));
    assert!(matches!(read(&locals, &globals, "score", "at"), Ok(Value::I32(7))));
    assert!(matches!(read(&locals, &globals, "tmp", "at"), Ok(Value::Bool(true))));
    assert_eq!(globals.len(), 1);
    assert_eq!(locals.len(), 1);
    let e = read(&locals, &globals, "nope", "f/b/2").unwrap_err();
    assert_eq!((e.code.as_str(), e.location.as_str(), e.message.as_str()), ("E_UNINITIALIZED", "f/b/2", "nope"));
}

#[test]
fn predicates_default_to_true_and_require_bool() {
    let none = vec![];
    assert_eq!(predicate(&None, &none, &none, "at").unwrap(), true);
    assert_eq!(predicate(&Some(boolean(false)), &none, &none, "at").unwrap(), false);
    let e = predicate(&Some(num(1)), &none, &none, "at").unwrap_err();
    assert_eq!((e.code.as_str(), e.message.as_str()), ("E_TYPE", "predicate"));
}
