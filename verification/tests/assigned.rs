use nir::assigned::{check_definite, incoming_sets};
use nir::format::{Block, Expr, Function, Op, Operation, Terminator, Value, ValueType};

fn var(n: &str) -> Expr {
    Expr::Var { name: n.to_string() }
}

fn assign(id: &str, target: &str, value: Expr) -> Op {
    Op { id: id.to_string(), operation: Operation::Assign { target: target.to_string(), value } }
}

fn goto(t: &str) -> Terminator {
    Terminator::Goto { target: t.to_string() }
}

fn function(blocks: Vec<(&str, Vec<Op>, Terminator)>) -> Function {
    Function {
        params: vec![("n".to_string(), ValueType::I32)],
        locals: vec![("x".to_string(), ValueType::I32), ("y".to_string(), ValueType::I32)],
        returns: Some(ValueType::I32),
        entry: "start".to_string(),
        blocks: blocks.into_iter().map(|(k, ops, terminator)| (k.to_string(), Block { ops, terminator })).collect(),
    }
}

fn diamond(assign_in_b: bool) -> Function {
    let b_ops = if assign_in_b { vec![assign("b0", "y", var("n"))] } else { vec![] };
    function(vec![
        ("start", vec![assign("s0", "x", Expr::Const { value: Value::I32(1) })], Terminator::Branch {
            condition: var("flag"),
            yes: "a".to_string(),
            no: "b".to_string(),
        }),
        ("a", vec![assign("a0", "y", var("x"))], goto("join")),
        ("b", b_ops, goto("join")),
        ("join", vec![], Terminator::Return { value: Some(var("y")) }),
    ])
}

fn names(v: &[(String, Vec<String>)], k: &str) -> Vec<String> {
    let mut s = v.iter().find(|(n, _)| n == k).unwrap().1.clone();
    s.sort();
    s
}

#[test]
fn join_keeps_only_what_both_branches_assign() {
    let globals = vec!["flag".to_string()];
    let sets = incoming_sets(&diamond(false), &globals);
    assert_eq!(names(&sets, "start"), vec!["flag", "n"]);
    assert_eq!(names(&sets, "a"), vec!["flag", "n", "x"]);
    assert_eq!(names(&sets, "join"), vec!["flag", "n", "x"]);
    let sets = incoming_sets(&diamond(true), &globals);
    assert_eq!(names(&sets, "join"), vec!["flag", "n", "x", "y"]);
}

#[test]
fn reading_a_variable_unassigned_on_one_path_fails() {
    let globals = vec!["flag".to_string()];
    let d = check_definite(&diamond(false), "main", &globals).unwrap_err();
    assert_eq!((d.code.as_str(), d.location.as_str(), d.message.as_str()), ("E_UNINITIALIZED", "main/join", "y"));
    assert!(check_definite(&diamond(true), "main", &globals).is_ok());
}

#[test]
fn operations_are_checked_in_order_and_loops_converge() {
    let f = function(vec![
        ("start", vec![assign("s0", "x", var("y")), assign("s1", "y", var("n"))], goto("start")),
    ]);
    let d = check_definite(&f, "main", &vec![]).unwrap_err();
    assert_eq!((d.code.as_str(), d.location.as_str(), d.message.as_str()), ("E_UNINITIALIZED", "s0", "y"));
    let looping = function(vec![
        ("start", vec![assign("s0", "x", var("n"))], goto("loop")),
        ("loop", vec![assign("l0", "y", var("x"))], Terminator::Branch { condition: var("flag"), yes: "loop".to_string(), no: "out".to_string() }),
        ("out", vec![], Terminator::Return { value: Some(var("y")) }),
    ]);
    assert!(check_definite(&looping, "main", &vec!["flag".to_string()]).is_ok());
    let sets = incoming_sets(&looping, &vec!["flag".to_string()]);
    assert_eq!(names(&sets, "loop"), vec!["flag", "n", "x"]);
    assert_eq!(names(&sets, "out"), vec!["flag", "n", "x", "y"]);
}

#[test]
fn unreachable_blocks_are_not_checked() {
    let f = function(vec![
        ("start", vec![], Terminator::Return { value: Some(var("n")) }),
        ("dead", vec![assign("d0", "x", var("nowhere"))], goto("start")),
    ]);
    assert!(check_definite(&f, "main", &vec![]).is_ok());
    assert!(incoming_sets(&f, &vec![]).iter().all(|(k, _)| k != "dead"));
}
