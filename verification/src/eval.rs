//! Evaluation of script expressions against a frame's locals and the global
//! variables, and the reads and writes of named variables.
use crate::expr::{typing, var_type};
use crate::format::{diag_is, fails_with, value_type, BinaryOp, Diagnostic, Expr, Value, ValueType};
use crate::dialogue::Frame;
use crate::strings::{concat, decimal, decimal_text, owned, str_eq, utf8_bytes};
use crate::text::DiagText;
use vstd::prelude::*;

verus! {

/// The longest string, in bytes, that a concatenation may produce.
pub const MAX_CONCAT_BYTES: usize = 131072;

/// A value as the specifications see it: strings by their characters.
pub enum ValueView {
    Bool(bool),
    I32(i32),
    Str(Seq<char>),
}

impl View for Value {
    type V = ValueView;

    open spec fn view(&self) -> ValueView {
        match self {
            Value::Bool(b) => ValueView::Bool(*b),
            Value::I32(i) => ValueView::I32(*i),
            Value::String(s) => ValueView::Str(s@),
        }
    }
}

/// The type of a value view.
pub open spec fn view_type(v: ValueView) -> ValueType {
    match v {
        ValueView::Bool(_) => ValueType::Bool,
        ValueView::I32(_) => ValueType::I32,
        ValueView::Str(_) => ValueType::String,
    }
}

/// The value bound to `name` (the first binding wins).
pub open spec fn lookup(vars: Seq<(String, Value)>, name: Seq<char>) -> Option<Value>
    decreases vars.len(),
{
    if vars.len() == 0 {
        None
    } else if vars[0].0@ == name {
        Some(vars[0].1)
    } else {
        lookup(vars.drop_first(), name)
    }
}

/// What a read of `name` sees: a local shadows a global.
pub open spec fn visible(locals: Seq<(String, Value)>, globals: Seq<(String, Value)>, name: Seq<char>) -> Option<Value> {
    match lookup(locals, name) {
        Some(v) => Some(v),
        None => lookup(globals, name),
    }
}

/// Checked integer arithmetic as Rust's `checked_*` operations compute it.
pub open spec fn arith(op: BinaryOp, a: i32, b: i32) -> Option<i32> {
    match op {
        BinaryOp::Add => a.checked_add(b),
        BinaryOp::Sub => a.checked_sub(b),
        BinaryOp::Mul => a.checked_mul(b),
        BinaryOp::Div => a.checked_div(b),
        BinaryOp::Rem => a.checked_rem(b),
        _ => None,
    }
}

/// `op` is one of the five integer arithmetic operators.
pub open spec fn is_arith(op: BinaryOp) -> bool {
    op is Add || op is Sub || op is Mul || op is Div || op is Rem
}

/// `op` is one of the four integer comparisons.
pub open spec fn is_order(op: BinaryOp) -> bool {
    op is Lt || op is Le || op is Gt || op is Ge
}

/// The outcome of a binary operator on two evaluated operands.
pub open spec fn binary_outcome(op: BinaryOp, l: ValueView, r: ValueView, at: Seq<char>) -> Result<ValueView, DiagText> {
    if op is Eq {
        Ok(ValueView::Bool(l == r))
    } else if op is Ne {
        Ok(ValueView::Bool(l != r))
    } else {
        match (l, r) {
            (ValueView::I32(a), ValueView::I32(b)) => if is_arith(op) {
                match arith(op, a, b) {
                    Some(x) => Ok(ValueView::I32(x)),
                    None => Err(("E_ARITHMETIC"@, at, "overflow or division by zero"@)),
                }
            } else if op is Lt {
                Ok(ValueView::Bool(a < b))
            } else if op is Le {
                Ok(ValueView::Bool(a <= b))
            } else if op is Gt {
                Ok(ValueView::Bool(a > b))
            } else if op is Ge {
                Ok(ValueView::Bool(a >= b))
            } else {
                Err(("E_TYPE"@, at, "binary operands"@))
            },
            (ValueView::Bool(a), ValueView::Bool(b)) => if op is And {
                Ok(ValueView::Bool(a && b))
            } else if op is Or {
                Ok(ValueView::Bool(a || b))
            } else {
                Err(("E_TYPE"@, at, "binary operands"@))
            },
            (ValueView::Str(a), ValueView::Str(b)) => if op is Concat {
                if utf8_bytes(a).len() + utf8_bytes(b).len() > MAX_CONCAT_BYTES {
                    Err(("E_LIMIT"@, at, "string length"@))
                } else {
                    Ok(ValueView::Str(a + b))
                }
            } else {
                Err(("E_TYPE"@, at, "binary operands"@))
            },
            _ => Err(("E_TYPE"@, at, "binary operands"@)),
        }
    }
}

/// The value of `e`, or the diagnostic raised at `at`. `And` and `Or` do not
/// evaluate their right operand once the left one decides the result.
pub open spec fn evaluation(e: Expr, locals: Seq<(String, Value)>, globals: Seq<(String, Value)>, at: Seq<char>) -> Result<ValueView, DiagText>
    decreases e,
{
    match e {
        Expr::Const { value } => Ok(value@),
        Expr::Var { name } => match visible(locals, globals, name@) {
            Some(v) => Ok(v@),
            None => Err(("E_UNINITIALIZED"@, at, name@)),
        },
        Expr::Not { value } => match evaluation(*value, locals, globals, at) {
            Err(d) => Err(d),
            Ok(ValueView::Bool(b)) => Ok(ValueView::Bool(!b)),
            Ok(_) => Err(("E_TYPE"@, at, "not"@)),
        },
        Expr::Binary { op, left, right } => match evaluation(*left, locals, globals, at) {
            Err(d) => Err(d),
            Ok(l) => if op is And && l == ValueView::Bool(false) {
                Ok(ValueView::Bool(false))
            } else if op is Or && l == ValueView::Bool(true) {
                Ok(ValueView::Bool(true))
            } else {
                match evaluation(*right, locals, globals, at) {
                    Err(d) => Err(d),
                    Ok(r) => binary_outcome(op, l, r, at),
                }
            },
        },
    }
}

/// Every bound variable that `vars` declares holds a value of its declared type.
pub open spec fn bindings_typed(vars: Seq<(String, ValueType)>, locals: Seq<(String, Value)>, globals: Seq<(String, Value)>) -> bool {
    forall|n: Seq<char>| #[trigger] var_type(vars, n) is Some && visible(locals, globals, n) is Some
        ==> value_type(visible(locals, globals, n).unwrap()) == var_type(vars, n).unwrap()
}

/// The codes an evaluation may fail with when its expression is well typed.
pub open spec fn runtime_fault(code: Seq<char>) -> bool {
    code == "E_UNINITIALIZED"@ || code == "E_ARITHMETIC"@ || code == "E_LIMIT"@
}

/// The evaluation `r` agrees with the static type `t`: a value of type `t`,
/// or a fault that typing cannot rule out.
pub open spec fn agrees_with_type(r: Result<ValueView, DiagText>, t: ValueType) -> bool {
    match r {
        Ok(v) => view_type(v) == t,
        Err(d) => runtime_fault(d.0),
    }
}

/// Type soundness: an expression that `expr_type` accepts, evaluated where
/// each bound declared variable holds a value of its declared type, yields a
/// value of the type it was given, or fails on an unbound read, an
/// arithmetic fault or the string length limit; never on a type mismatch.
pub proof fn well_typed_evaluation(
    e: Expr,
    vars: Seq<(String, ValueType)>,
    locals: Seq<(String, Value)>,
    globals: Seq<(String, Value)>,
    typed_at: Seq<char>,
    at: Seq<char>,
)
    requires
        typing(e, vars, typed_at) is Ok,
        bindings_typed(vars, locals, globals),
    ensures
        agrees_with_type(evaluation(e, locals, globals, at), typing(e, vars, typed_at)->Ok_0),
    decreases e,
{
    match e {
        Expr::Const { value } => {},
        Expr::Var { name } => {
            assert(var_type(vars, name@) is Some);
        },
        Expr::Not { value } => {
            well_typed_evaluation(*value, vars, locals, globals, typed_at, at);
        },
        Expr::Binary { op, left, right } => {
            well_typed_evaluation(*left, vars, locals, globals, typed_at, at);
            well_typed_evaluation(*right, vars, locals, globals, typed_at, at);
        },
    }
}

/// Integer operators compute on the integers: when both operands evaluate
/// to the integers `a` and `b`, `<`, `<=`, `>` and `>=` answer whether
/// `a < b`, `a <= b`, `a > b` and `a >= b`; `==` and `!=` whether `a` and `b`
/// are the same number; `+`, `-` and `*` give the exact sum, difference
/// and product when it lies in the `i32` range, and an arithmetic fault at
/// `at` when it does not; `/` and `%` by zero are that fault, and by a
/// positive divisor they truncate toward zero: the quotient and remainder
/// of a negative dividend are those of its magnitude, negated.
pub proof fn integer_operators_compute(
    op: BinaryOp,
    left: Expr,
    right: Expr,
    locals: Seq<(String, Value)>,
    globals: Seq<(String, Value)>,
    at: Seq<char>,
    a: i32,
    b: i32,
)
    requires
        evaluation(left, locals, globals, at) == Ok::<ValueView, DiagText>(ValueView::I32(a)),
        evaluation(right, locals, globals, at) == Ok::<ValueView, DiagText>(ValueView::I32(b)),
    ensures
        ({
            let v = evaluation(Expr::Binary { op, left: Box::new(left), right: Box::new(right) }, locals, globals, at);
            let fault = Err::<ValueView, DiagText>(("E_ARITHMETIC"@, at, "overflow or division by zero"@));
            &&& op is Lt ==> v == Ok::<ValueView, DiagText>(ValueView::Bool(a < b))
            &&& op is Le ==> v == Ok::<ValueView, DiagText>(ValueView::Bool(a <= b))
            &&& op is Gt ==> v == Ok::<ValueView, DiagText>(ValueView::Bool(a > b))
            &&& op is Ge ==> v == Ok::<ValueView, DiagText>(ValueView::Bool(a >= b))
            &&& op is Eq ==> v == Ok::<ValueView, DiagText>(ValueView::Bool(a == b))
            &&& op is Ne ==> v == Ok::<ValueView, DiagText>(ValueView::Bool(a != b))
            &&& op is Add ==> v == if i32::MIN <= a + b <= i32::MAX {
                Ok::<ValueView, DiagText>(ValueView::I32((a + b) as i32))
            } else {
                fault
            }
            &&& op is Sub ==> v == if i32::MIN <= a - b <= i32::MAX {
                Ok::<ValueView, DiagText>(ValueView::I32((a - b) as i32))
            } else {
                fault
            }
            &&& op is Mul ==> v == if i32::MIN <= a * b <= i32::MAX {
                Ok::<ValueView, DiagText>(ValueView::I32((a * b) as i32))
            } else {
                fault
            }
            &&& ((op is Div || op is Rem) && b == 0) ==> v == fault
            &&& (op is Div && a >= 0 && b > 0) ==> v == Ok::<ValueView, DiagText>(ValueView::I32((a / b) as i32))
            &&& (op is Rem && a >= 0 && b > 0) ==> v == Ok::<ValueView, DiagText>(ValueView::I32(((a as int) % (b as int)) as i32))
            &&& (op is Div && a < 0 && b > 0) ==> v == Ok::<ValueView, DiagText>(ValueView::I32((-((-(a as int)) / (b as int))) as i32))
            &&& (op is Rem && a < 0 && b > 0) ==> v == Ok::<ValueView, DiagText>(ValueView::I32((-((-(a as int)) % (b as int))) as i32))
        }),
{
    if b > 0 {
        let x = a as int;
        let d = b as int;
        if x >= 0 {
            assert(0 <= x / d <= x) by (nonlinear_arith)
                requires
                    x >= 0,
                    d > 0,
            ;
            assert(0 <= x % d < d) by (nonlinear_arith)
                requires
                    d > 0,
            ;
            assert(0int % d == 0 && 0int / d == 0) by (nonlinear_arith)
                requires
                    d > 0,
            ;
        } else {
            let m = -x;
            assert(x * -1 == m);
            assert(0 <= m / d <= m) by (nonlinear_arith)
                requires
                    m > 0,
                    d > 0,
            ;
            assert(0 <= m % d < d) by (nonlinear_arith)
                requires
                    d > 0,
            ;
        }
    }
}

/// Flag and string operators compute logic and joining: `!` negates a
/// flag; when the left operand evaluates to the flag `x`, `&&` gives `false`
/// without evaluating the right one if `x` is `false` and the right flag `y`
/// otherwise, and `||` gives `true` without evaluating the right one if `x`
/// is `true` and `y` otherwise; two strings joined with `++` give their
/// concatenation when it stays within the length limit.
pub proof fn flag_and_string_operators_compute(
    left: Expr,
    right: Expr,
    locals: Seq<(String, Value)>,
    globals: Seq<(String, Value)>,
    at: Seq<char>,
    x: bool,
    y: bool,
    a: Seq<char>,
    b: Seq<char>,
)
    ensures
        ({
            let l = evaluation(left, locals, globals, at);
            let r = evaluation(right, locals, globals, at);
            let not = evaluation(Expr::Not { value: Box::new(left) }, locals, globals, at);
            let and = evaluation(Expr::Binary { op: BinaryOp::And, left: Box::new(left), right: Box::new(right) }, locals, globals, at);
            let or = evaluation(Expr::Binary { op: BinaryOp::Or, left: Box::new(left), right: Box::new(right) }, locals, globals, at);
            let join = evaluation(Expr::Binary { op: BinaryOp::Concat, left: Box::new(left), right: Box::new(right) }, locals, globals, at);
            &&& l == Ok::<ValueView, DiagText>(ValueView::Bool(x)) ==> not == Ok::<ValueView, DiagText>(ValueView::Bool(!x))
            &&& l == Ok::<ValueView, DiagText>(ValueView::Bool(false)) ==> and == Ok::<ValueView, DiagText>(ValueView::Bool(false))
            &&& l == Ok::<ValueView, DiagText>(ValueView::Bool(true)) ==> or == Ok::<ValueView, DiagText>(ValueView::Bool(true))
            &&& (l == Ok::<ValueView, DiagText>(ValueView::Bool(true)) && r == Ok::<ValueView, DiagText>(ValueView::Bool(y)))
                ==> and == Ok::<ValueView, DiagText>(ValueView::Bool(y))
            &&& (l == Ok::<ValueView, DiagText>(ValueView::Bool(false)) && r == Ok::<ValueView, DiagText>(ValueView::Bool(y)))
                ==> or == Ok::<ValueView, DiagText>(ValueView::Bool(y))
            &&& (l == Ok::<ValueView, DiagText>(ValueView::Str(a)) && r == Ok::<ValueView, DiagText>(ValueView::Str(b))
                && utf8_bytes(a).len() + utf8_bytes(b).len() <= MAX_CONCAT_BYTES)
                ==> join == Ok::<ValueView, DiagText>(ValueView::Str(a + b))
        }),
{
}

/// A variable reads as its first binding among the frame's locals, which
/// shadow the globals; with no local of that name, as its first global
/// binding; with neither, the read fails as uninitialized at `at`.
pub proof fn variable_reads_prefer_locals(
    name: String,
    locals: Seq<(String, Value)>,
    globals: Seq<(String, Value)>,
    at: Seq<char>,
    k: int,
)
    ensures
        ({
            let v = evaluation(Expr::Var { name }, locals, globals, at);
            &&& (0 <= k < locals.len() && locals[k].0@ == name@ && forall|j: int| 0 <= j < k ==> (#[trigger] locals[j]).0@ != name@)
                ==> v == Ok::<ValueView, DiagText>(locals[k].1@)
            &&& ((forall|j: int| 0 <= j < locals.len() ==> (#[trigger] locals[j]).0@ != name@) && 0 <= k < globals.len()
                && globals[k].0@ == name@ && forall|j: int| 0 <= j < k ==> (#[trigger] globals[j]).0@ != name@)
                ==> v == Ok::<ValueView, DiagText>(globals[k].1@)
            &&& ((forall|j: int| 0 <= j < locals.len() ==> (#[trigger] locals[j]).0@ != name@)
                && (forall|j: int| 0 <= j < globals.len() ==> (#[trigger] globals[j]).0@ != name@))
                ==> v == Err::<ValueView, DiagText>(("E_UNINITIALIZED"@, at, name@))
        }),
{
    if 0 <= k < locals.len() && locals[k].0@ == name@ && forall|j: int| 0 <= j < k ==> (#[trigger] locals[j]).0@ != name@ {
        lemma_lookup_first(locals, name@, k);
    }
    if forall|j: int| 0 <= j < locals.len() ==> (#[trigger] locals[j]).0@ != name@ {
        lemma_lookup_absent(locals, name@);
        if 0 <= k < globals.len() && globals[k].0@ == name@ && forall|j: int| 0 <= j < k ==> (#[trigger] globals[j]).0@ != name@ {
            lemma_lookup_first(globals, name@, k);
        }
        if forall|j: int| 0 <= j < globals.len() ==> (#[trigger] globals[j]).0@ != name@ {
            lemma_lookup_absent(globals, name@);
        }
    }
}

/// `r` is what the evaluation `v` describes.
pub open spec fn evaluates_as(r: Result<Value, Diagnostic>, v: Result<ValueView, DiagText>) -> bool {
    match r {
        Ok(x) => v == Ok::<ValueView, DiagText>(x@),
        Err(d) => match v {
            Ok(_) => false,
            Err(t) => diag_is(d, t.0, t.1, t.2),
        },
    }
}

/// The value bound to `name` in `vars`.
fn find_value(vars: &Vec<(String, Value)>, name: &str) -> (r: Option<Value>)
    ensures
        r == lookup(vars@, name@),
{
    let mut i: usize = 0;
    assert(vars@.subrange(0, vars@.len() as int) =~= vars@);
    while i < vars.len()
        invariant
            i <= vars@.len(),
            lookup(vars@, name@) == lookup(vars@.subrange(i as int, vars@.len() as int), name@),
        decreases vars@.len() - i,
    {
        assert(vars@.subrange(i as int, vars@.len() as int).drop_first() =~= vars@.subrange(i + 1, vars@.len() as int));
        if str_eq(vars[i].0.as_str(), name) {
            return Some(vars[i].1.clone());
        }
        i = i + 1;
    }
    None
}

/// Reads `name`: the frame's local if there is one, else the global; an
/// unbound name is an uninitialized read.
pub fn read(locals: &Vec<(String, Value)>, globals: &Vec<(String, Value)>, name: &str, at: &str) -> (r: Result<Value, Diagnostic>)
    ensures
        match visible(locals@, globals@, name@) {
            Some(v) => r == Ok::<Value, Diagnostic>(v),
            None => r matches Err(d) && diag_is(d, "E_UNINITIALIZED"@, at@, name@),
        },
{
    match find_value(locals, name) {
        Some(v) => Ok(v),
        None => match find_value(globals, name) {
            Some(v) => Ok(v),
            None => Err(Diagnostic::new("E_UNINITIALIZED", at, name)),
        },
    }
}

/// The position of the first binding of `name`, if any.
fn position(vars: &Vec<(String, Value)>, name: &str) -> (r: Option<usize>)
    ensures
        match r {
            Some(i) => i < vars@.len() && vars@[i as int].0@ == name@ && forall|j: int| 0 <= j < i ==> (#[trigger] vars@[j]).0@ != name@,
            None => forall|j: int| 0 <= j < vars@.len() ==> (#[trigger] vars@[j]).0@ != name@,
        },
{
    let mut i: usize = 0;
    while i < vars.len()
        invariant
            i <= vars@.len(),
            forall|j: int| 0 <= j < i ==> (#[trigger] vars@[j]).0@ != name@,
        decreases vars@.len() - i,
    {
        if str_eq(vars[i].0.as_str(), name) {
            return Some(i);
        }
        i = i + 1;
    }
    None
}

proof fn lemma_lookup_first(vars: Seq<(String, Value)>, name: Seq<char>, i: int)
    requires
        0 <= i < vars.len(),
        vars[i].0@ == name,
        forall|j: int| 0 <= j < i ==> (#[trigger] vars[j]).0@ != name,
    ensures
        lookup(vars, name) == Some(vars[i].1),
    decreases i,
{
    if i > 0 {
        lemma_lookup_first(vars.drop_first(), name, i - 1);
    }
}

proof fn lemma_lookup_absent(vars: Seq<(String, Value)>, name: Seq<char>)
    requires
        forall|j: int| 0 <= j < vars.len() ==> (#[trigger] vars[j]).0@ != name,
    ensures
        lookup(vars, name) is None,
    decreases vars.len(),
{
    if vars.len() > 0 {
        assert(vars[0].0@ != name);
        lemma_lookup_absent(vars.drop_first(), name);
    }
}

proof fn lemma_lookup_update(vars: Seq<(String, Value)>, name: Seq<char>, i: int, key: String, v: Value, other: Seq<char>)
    requires
        0 <= i < vars.len(),
        vars[i].0@ == name,
        key@ == name,
        forall|j: int| 0 <= j < i ==> (#[trigger] vars[j]).0@ != name,
    ensures
        lookup(vars.update(i, (key, v)), name) == Some(v),
        other != name ==> lookup(vars.update(i, (key, v)), other) == lookup(vars, other),
    decreases i,
{
    if i > 0 {
        lemma_lookup_update(vars.drop_first(), name, i - 1, key, v, other);
        assert(vars.update(i, (key, v)).drop_first() =~= vars.drop_first().update(i - 1, (key, v)));
    } else {
        assert(vars.update(i, (key, v)).drop_first() =~= vars.drop_first());
    }
}

proof fn lemma_lookup_push(vars: Seq<(String, Value)>, key: String, v: Value, other: Seq<char>)
    requires
        forall|j: int| 0 <= j < vars.len() ==> (#[trigger] vars[j]).0@ != key@,
    ensures
        lookup(vars.push((key, v)), key@) == Some(v),
        other != key@ ==> lookup(vars.push((key, v)), other) == lookup(vars, other),
    decreases vars.len(),
{
    let pushed = vars.push((key, v));
    if vars.len() > 0 {
        assert(pushed[0] == vars[0]);
        lemma_lookup_push(vars.drop_first(), key, v, other);
        assert(pushed.drop_first() =~= vars.drop_first().push((key, v)));
        if other != key@ && vars[0].0@ != other {
            assert(lookup(pushed, other) == lookup(pushed.drop_first(), other));
            assert(lookup(vars, other) == lookup(vars.drop_first(), other));
        }
    } else {
        assert(vars.push((key, v)).drop_first() =~= Seq::<(String, Value)>::empty());
    }
}

/// Binds `name` to `v` in `vars`, replacing its first binding or adding one.
fn bind(vars: &mut Vec<(String, Value)>, name: &str, v: Value)
    ensures
        lookup(final(vars)@, name@) == Some(v),
        forall|other: Seq<char>| other != name@ ==> #[trigger] lookup(final(vars)@, other) == lookup(old(vars)@, other),
{
    match position(vars, name) {
        Some(i) => {
            let key = name.to_owned();
            proof {
                assert forall|other: Seq<char>| other != name@ implies #[trigger] lookup(old(vars)@.update(i as int, (key, v)), other) == lookup(old(vars)@, other) by {
                    lemma_lookup_update(old(vars)@, name@, i as int, key, v, other);
                }
                lemma_lookup_update(old(vars)@, name@, i as int, key, v, name@);
            }
            vars.set(i, (key, v));
        },
        None => {
            let key = name.to_owned();
            proof {
                assert forall|other: Seq<char>| other != name@ implies #[trigger] lookup(old(vars)@.push((key, v)), other) == lookup(old(vars)@, other) by {
                    lemma_lookup_push(old(vars)@, key, v, other);
                }
                lemma_lookup_push(old(vars)@, key, v, name@);
            }
            vars.push((key, v));
        },
    }
}

/// Writes `name`: a declared global is updated in place, any other name is
/// bound in the frame's locals. A later read of `name` sees `v` unless a
/// local of that name shadows the global written; other names read as before.
pub fn write(locals: &mut Vec<(String, Value)>, globals: &mut Vec<(String, Value)>, name: &str, v: Value)
    ensures
        lookup(old(globals)@, name@) is Some ==> lookup(final(globals)@, name@) == Some(v) && final(locals)@ == old(locals)@,
        lookup(old(globals)@, name@) is None ==> lookup(final(locals)@, name@) == Some(v) && final(globals)@ == old(globals)@,
        forall|other: Seq<char>| other != name@ ==> #[trigger] lookup(final(globals)@, other) == lookup(old(globals)@, other),
        forall|other: Seq<char>| other != name@ ==> #[trigger] lookup(final(locals)@, other) == lookup(old(locals)@, other),
        lookup(old(locals)@, name@) is None || lookup(old(globals)@, name@) is None ==> visible(final(locals)@, final(globals)@, name@) == Some(v),
        forall|other: Seq<char>| other != name@ ==> #[trigger] visible(final(locals)@, final(globals)@, other) == visible(old(locals)@, old(globals)@, other),
{
    if find_value(globals, name).is_some() {
        bind(globals, name, v);
    } else {
        bind(locals, name, v);
    }
}

/// Structural equality of two values, strings compared by content.
fn same_value(a: &Value, b: &Value) -> (r: bool)
    ensures
        r == (a@ == b@),
{
    match (a, b) {
        (Value::Bool(x), Value::Bool(y)) => *x == *y,
        (Value::I32(x), Value::I32(y)) => *x == *y,
        (Value::String(x), Value::String(y)) => str_eq(x.as_str(), y.as_str()),
        _ => false,
    }
}

fn binary(op: BinaryOp, l: Value, r: Value, at: &str) -> (res: Result<Value, Diagnostic>)
    ensures
        evaluates_as(res, binary_outcome(op, l@, r@, at@)),
{
    match op {
        BinaryOp::Eq => return Ok(Value::Bool(same_value(&l, &r))),
        BinaryOp::Ne => return Ok(Value::Bool(!same_value(&l, &r))),
        _ => {},
    }
    match (l, r) {
        (Value::I32(a), Value::I32(b)) => {
            let arithmetic = match op {
                BinaryOp::Add => Some(a.checked_add(b)),
                BinaryOp::Sub => Some(a.checked_sub(b)),
                BinaryOp::Mul => Some(a.checked_mul(b)),
                BinaryOp::Div => Some(a.checked_div(b)),
                BinaryOp::Rem => Some(a.checked_rem(b)),
                _ => None,
            };
            match arithmetic {
                Some(Some(x)) => Ok(Value::I32(x)),
                Some(None) => Err(Diagnostic::new("E_ARITHMETIC", at, "overflow or division by zero")),
                None => match op {
                    BinaryOp::Lt => Ok(Value::Bool(a < b)),
                    BinaryOp::Le => Ok(Value::Bool(a <= b)),
                    BinaryOp::Gt => Ok(Value::Bool(a > b)),
                    BinaryOp::Ge => Ok(Value::Bool(a >= b)),
                    _ => Err(Diagnostic::new("E_TYPE", at, "binary operands")),
                },
            }
        },
        (Value::Bool(a), Value::Bool(b)) => match op {
            BinaryOp::And => Ok(Value::Bool(a && b)),
            BinaryOp::Or => Ok(Value::Bool(a || b)),
            _ => Err(Diagnostic::new("E_TYPE", at, "binary operands")),
        },
        (Value::String(a), Value::String(b)) => match op {
            BinaryOp::Concat => {
                let too_long = match a.as_str().as_bytes().len().checked_add(b.as_str().as_bytes().len()) {
                    Some(n) => n > MAX_CONCAT_BYTES,
                    None => true,
                };
                if too_long {
                    Err(Diagnostic::new("E_LIMIT", at, "string length"))
                } else {
                    Ok(Value::String(concat(a.as_str(), b.as_str())))
                }
            },
            _ => Err(Diagnostic::new("E_TYPE", at, "binary operands")),
        },
        _ => Err(Diagnostic::new("E_TYPE", at, "binary operands")),
    }
}

/// Evaluates `e`; errors are reported at `at`.
pub fn eval(e: &Expr, locals: &Vec<(String, Value)>, globals: &Vec<(String, Value)>, at: &str) -> (r: Result<Value, Diagnostic>)
    ensures
        evaluates_as(r, evaluation(*e, locals@, globals@, at@)),
    decreases e,
{
    match e {
        Expr::Const { value } => Ok(value.clone()),
        Expr::Var { name } => read(locals, globals, name.as_str(), at),
        Expr::Not { value } => match eval(value, locals, globals, at)? {
            Value::Bool(b) => Ok(Value::Bool(!b)),
            _ => Err(Diagnostic::new("E_TYPE", at, "not")),
        },
        Expr::Binary { op, left, right } => {
            let l = eval(left, locals, globals, at)?;
            match (op, &l) {
                (BinaryOp::And, Value::Bool(false)) => return Ok(Value::Bool(false)),
                (BinaryOp::Or, Value::Bool(true)) => return Ok(Value::Bool(true)),
                _ => {},
            }
            let r = eval(right, locals, globals, at)?;
            binary(*op, l, r, at)
        },
    }
}

/// An optional guard: absent means true, present must evaluate to a Bool.
pub fn predicate(e: &Option<Expr>, locals: &Vec<(String, Value)>, globals: &Vec<(String, Value)>, at: &str) -> (r: Result<bool, Diagnostic>)
    ensures
        match e {
            None => r == Ok::<bool, Diagnostic>(true),
            Some(x) => match evaluation(*x, locals@, globals@, at@) {
                Ok(ValueView::Bool(b)) => r == Ok::<bool, Diagnostic>(b),
                Ok(_) => r matches Err(d) && diag_is(d, "E_TYPE"@, at@, "predicate"@),
                Err(t) => r matches Err(d) && diag_is(d, t.0, t.1, t.2),
            },
        },
{
    match e {
        None => Ok(true),
        Some(x) => match eval(x, locals, globals, at)? {
            Value::Bool(b) => Ok(b),
            _ => Err(Diagnostic::new("E_TYPE", at, "predicate")),
        },
    }
}

/// Where the machine is: `function/block/position` of the innermost frame,
/// or `end` once no frame is left.
pub open spec fn location_of(frames: Seq<Frame>) -> Seq<char> {
    if frames.len() == 0 {
        "end"@
    } else {
        let f = frames.last();
        f.function@ + "/"@ + f.block@ + "/"@ + decimal_text(f.op as nat)
    }
}

/// The location the machine reports.
pub fn location(frames: &Vec<Frame>) -> (r: String)
    ensures
        r@ == location_of(frames@),
{
    if frames.len() == 0 {
        return owned("end");
    }
    let f = &frames[frames.len() - 1];
    let mut r = f.function.clone();
    r.append("/");
    r.append(f.block.as_str());
    r.append("/");
    r.append(decimal(f.op as u64).as_str());
    r
}

/// Hands out the next instance identifier from `counter`, which moves on;
/// an exhausted counter is an error reported at `at`.
pub fn next_id(counter: &mut u32, at: &str) -> (r: Result<u32, Diagnostic>)
    ensures
        *old(counter) < u32::MAX ==> r == Ok::<u32, Diagnostic>(*old(counter)) && *final(counter) == *old(counter) + 1,
        *old(counter) == u32::MAX ==> fails_with(r, "E_LIMIT"@, at@, "instance counter overflow"@)
            && *final(counter) == *old(counter),
{
    let id = *counter;
    match id.checked_add(1) {
        Some(n) => {
            *counter = n;
            Ok(id)
        },
        None => Err(Diagnostic::new("E_LIMIT", at, "instance counter overflow")),
    }
}

} // verus!
