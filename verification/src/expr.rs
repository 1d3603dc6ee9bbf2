//! Static typing and read sets of script expressions, and the control-flow
//! edges of block terminators.
use crate::format::{diag_is, BinaryOp, Diagnostic, Expr, Terminator, ValueType, value_type};
use crate::strings::{str_eq, utf8_bytes};
use crate::text::DiagText;
use vstd::prelude::*;
use vstd::string::*;

verus! {

/// The declared type of variable `name`, if it is declared (first entry wins).
pub open spec fn var_type(vars: Seq<(String, ValueType)>, name: Seq<char>) -> Option<ValueType>
    decreases vars.len(),
{
    if vars.len() == 0 {
        None
    } else if vars[0].0@ == name {
        Some(vars[0].1)
    } else {
        var_type(vars.drop_first(), name)
    }
}

/// The type a binary operator gives to operands of types `l` and `r`, if it accepts them.
pub open spec fn binary_type(op: BinaryOp, l: ValueType, r: ValueType) -> Option<ValueType> {
    match op {
        BinaryOp::Add | BinaryOp::Sub | BinaryOp::Mul | BinaryOp::Div | BinaryOp::Rem => if l
            == ValueType::I32 && r == l {
            Some(ValueType::I32)
        } else {
            None
        },
        BinaryOp::Lt | BinaryOp::Le | BinaryOp::Gt | BinaryOp::Ge => if l == ValueType::I32 && r
            == l {
            Some(ValueType::Bool)
        } else {
            None
        },
        BinaryOp::Eq | BinaryOp::Ne => if l == r {
            Some(ValueType::Bool)
        } else {
            None
        },
        BinaryOp::And | BinaryOp::Or => if l == ValueType::Bool && r == l {
            Some(ValueType::Bool)
        } else {
            None
        },
        BinaryOp::Concat => if l == ValueType::String && r == l {
            Some(ValueType::String)
        } else {
            None
        },
    }
}

/// The type of `e` under `vars`, or the diagnostic reported at `at`. Operands
/// are checked left before right.
pub open spec fn typing(e: Expr, vars: Seq<(String, ValueType)>, at: Seq<char>) -> Result<ValueType, DiagText>
    decreases e,
{
    match e {
        Expr::Const { value } => Ok(value_type(value)),
        Expr::Var { name } => match var_type(vars, name@) {
            Some(t) => Ok(t),
            None => Err(("E_VARIABLE"@, at, name@)),
        },
        Expr::Not { value } => match typing(*value, vars, at) {
            Err(d) => Err(d),
            Ok(t) => if t != ValueType::Bool {
                Err(("E_TYPE"@, at, "not requires Bool"@))
            } else {
                Ok(ValueType::Bool)
            },
        },
        Expr::Binary { op, left, right } => match typing(*left, vars, at) {
            Err(d) => Err(d),
            Ok(l) => match typing(*right, vars, at) {
                Err(d) => Err(d),
                Ok(r) => match binary_type(op, l, r) {
                    Some(t) => Ok(t),
                    None => Err(("E_TYPE"@, at, "binary operand types disagree"@)),
                },
            },
        },
    }
}

/// The result of a typing check matches the verdict `v`.
pub open spec fn typed_as(r: Result<ValueType, Diagnostic>, v: Result<ValueType, DiagText>) -> bool {
    match v {
        Ok(t) => r == Ok::<ValueType, Diagnostic>(t),
        Err(d) => r matches Err(x) && diag_is(x, d.0, d.1, d.2),
    }
}

pub(crate) fn lookup_var(vars: &Vec<(String, ValueType)>, name: &String) -> (r: Option<ValueType>)
    ensures
        r == var_type(vars@, name@),
{
    let mut i: usize = 0;
    assert(vars@.subrange(0, vars@.len() as int) =~= vars@);
    while i < vars.len()
        invariant
            i <= vars@.len(),
            var_type(vars@, name@) == var_type(vars@.subrange(i as int, vars@.len() as int), name@),
        decreases vars@.len() - i,
    {
        assert(vars@.subrange(i as int, vars@.len() as int).drop_first() =~= vars@.subrange(i + 1, vars@.len() as int));
        if str_eq(vars[i].0.as_str(), name.as_str()) {
            return Some(vars[i].1);
        }
        i = i + 1;
    }
    None
}

/// Checks the type of an expression against the declared variables.
pub fn expr_type(e: &Expr, vars: &Vec<(String, ValueType)>, at: &str) -> (r: Result<ValueType, Diagnostic>)
    ensures
        typed_as(r, typing(*e, vars@, at@)),
    decreases e,
{
    proof {
        assert(vars@.subrange(0, vars@.len() as int) =~= vars@);
    }
    match e {
        Expr::Const { value } => Ok(value.ty()),
        Expr::Var { name } => match lookup_var(vars, name) {
            Some(t) => Ok(t),
            None => Err(Diagnostic::new("E_VARIABLE", at, name.as_str())),
        },
        Expr::Not { value } => {
            let t = expr_type(value, vars, at)?;
            if t != ValueType::Bool {
                return Err(Diagnostic::new("E_TYPE", at, "not requires Bool"));
            }
            Ok(ValueType::Bool)
        },
        Expr::Binary { op, left, right } => {
            let l = expr_type(left, vars, at)?;
            let r = expr_type(right, vars, at)?;
            let result = match op {
                BinaryOp::Add | BinaryOp::Sub | BinaryOp::Mul | BinaryOp::Div | BinaryOp::Rem => {
                    if l == ValueType::I32 && r == l {
                        Some(ValueType::I32)
                    } else {
                        None
                    }
                },
                BinaryOp::Lt | BinaryOp::Le | BinaryOp::Gt | BinaryOp::Ge => {
                    if l == ValueType::I32 && r == l {
                        Some(ValueType::Bool)
                    } else {
                        None
                    }
                },
                BinaryOp::Eq | BinaryOp::Ne => {
                    if l == r {
                        Some(ValueType::Bool)
                    } else {
                        None
                    }
                },
                BinaryOp::And | BinaryOp::Or => {
                    if l == ValueType::Bool && r == l {
                        Some(ValueType::Bool)
                    } else {
                        None
                    }
                },
                BinaryOp::Concat => {
                    if l == ValueType::String && r == l {
                        Some(ValueType::String)
                    } else {
                        None
                    }
                },
            };
            match result {
                Some(t) => Ok(t),
                None => Err(Diagnostic::new("E_TYPE", at, "binary operand types disagree")),
            }
        },
    }
}

/// The variables an expression reads.
pub open spec fn expr_reads(e: Expr) -> Set<Seq<char>>
    decreases e,
{
    match e {
        Expr::Const { .. } => Set::empty(),
        Expr::Var { name } => set![name@],
        Expr::Not { value } => expr_reads(*value),
        Expr::Binary { left, right, .. } => expr_reads(*left).union(expr_reads(*right)),
    }
}

/// The set of names in a list.
pub open spec fn name_set(v: Seq<String>) -> Set<Seq<char>> {
    Set::new(|x: Seq<char>| exists|i: int| 0 <= i < v.len() && (#[trigger] v[i])@ == x)
}

/// Adds the variables `e` reads to `out`.
pub fn reads(e: &Expr, out: &mut Vec<String>)
    ensures
        name_set(final(out)@) == name_set(old(out)@).union(expr_reads(*e)),
    decreases e,
{
    match e {
        Expr::Var { name } => {
            let ghost before = out@;
            out.push(name.clone());
            proof {
                assert(name_set(out@) =~= name_set(before).union(expr_reads(*e))) by {
                    assert forall|x: Seq<char>| name_set(out@).contains(x) implies name_set(before).union(expr_reads(*e)).contains(x) by {
                        let c = choose|c: int| 0 <= c < out@.len() && (#[trigger] out@[c])@ == x;
                        if c < before.len() {
                            assert(before[c] == out@[c]);
                        }
                    }
                    assert forall|x: Seq<char>| name_set(before).union(expr_reads(*e)).contains(x) implies name_set(out@).contains(x) by {
                        if name_set(before).contains(x) {
                            let c = choose|c: int| 0 <= c < before.len() && (#[trigger] before[c])@ == x;
                            assert(out@[c] == before[c]);
                        } else {
                            assert(out@[before.len() as int]@ == x);
                        }
                    }
                }
            }
        },
        Expr::Not { value } => reads(value, out),
        Expr::Binary { left, right, .. } => {
            let ghost before = out@;
            reads(left, out);
            reads(right, out);
            proof {
                assert(name_set(out@) =~= name_set(before).union(expr_reads(*e)));
            }
        },
        Expr::Const { .. } => {
            proof {
                assert(name_set(out@) =~= name_set(out@).union(expr_reads(*e)));
            }
        },
    }
}

/// Byte-lexicographic order of strings (the order of `String` keys).
pub open spec fn bytes_less(a: Seq<u8>, b: Seq<u8>) -> bool
    decreases a.len(),
{
    if a.len() == 0 {
        b.len() > 0
    } else if b.len() == 0 {
        false
    } else if a[0] != b[0] {
        a[0] < b[0]
    } else {
        bytes_less(a.drop_first(), b.drop_first())
    }
}

/// `a` orders before `b`.
pub open spec fn name_less(a: Seq<char>, b: Seq<char>) -> bool {
    bytes_less(utf8_bytes(a), utf8_bytes(b))
}

pub(crate) fn less(a: &str, b: &str) -> (r: bool)
    ensures
        r == name_less(a@, b@),
{
    let x = a.as_bytes();
    let y = b.as_bytes();
    let mut i: usize = 0;
    assert(x@.subrange(0, x@.len() as int) =~= x@);
    assert(y@.subrange(0, y@.len() as int) =~= y@);
    while i < x.len() && i < y.len()
        invariant
            x@ == utf8_bytes(a@),
            y@ == utf8_bytes(b@),
            i <= x@.len(),
            i <= y@.len(),
            bytes_less(x@, y@) == bytes_less(x@.subrange(i as int, x@.len() as int), y@.subrange(i as int, y@.len() as int)),
        decreases x@.len() - i,
    {
        let ghost xs = x@.subrange(i as int, x@.len() as int);
        let ghost ys = y@.subrange(i as int, y@.len() as int);
        assert(xs[0] == x@[i as int]);
        assert(ys[0] == y@[i as int]);
        if x[i] != y[i] {
            return x[i] < y[i];
        }
        assert(xs.drop_first() =~= x@.subrange(i + 1, x@.len() as int));
        assert(ys.drop_first() =~= y@.subrange(i + 1, y@.len() as int));
        i = i + 1;
    }
    i == x.len() && i < y.len()
}

/// The diagnostic for reading a variable that may be unassigned: the first
/// such variable in name order.
pub open spec fn uninitialized_read(e: Expr, assigned: Set<Seq<char>>) -> Option<Seq<char>> {
    let pending = expr_reads(e).difference(assigned);
    if pending.is_empty() {
        None
    } else {
        Some(choose|v: Seq<char>| pending.contains(v) && forall|w: Seq<char>| #[trigger] pending.contains(w) && w != v ==> name_less(v, w))
    }
}

pub(crate) proof fn lemma_bytes_less_total(a: Seq<u8>, b: Seq<u8>)
    ensures
        a != b ==> (bytes_less(a, b) || bytes_less(b, a)),
        !(bytes_less(a, b) && bytes_less(b, a)),
    decreases a.len(),
{
    if a.len() > 0 && b.len() > 0 && a[0] == b[0] {
        lemma_bytes_less_total(a.drop_first(), b.drop_first());
        if a.drop_first() == b.drop_first() {
            assert(a =~= seq![a[0]] + a.drop_first());
            assert(b =~= seq![b[0]] + b.drop_first());
        }
    } else if a.len() == 0 && b.len() == 0 {
        assert(a =~= b);
    }
}

pub(crate) proof fn lemma_bytes_less_trans(a: Seq<u8>, b: Seq<u8>, c: Seq<u8>)
    requires
        bytes_less(a, b),
        bytes_less(b, c),
    ensures
        bytes_less(a, c),
    decreases a.len(),
{
    if a.len() > 0 && b.len() > 0 && c.len() > 0 && a[0] == b[0] && b[0] == c[0] {
        lemma_bytes_less_trans(a.drop_first(), b.drop_first(), c.drop_first());
    }
}

/// Fails with `E_UNINITIALIZED` when `e` reads a variable not in `assigned`.
pub fn check_reads(e: &Expr, assigned: &Vec<String>, at: &str) -> (r: Result<(), Diagnostic>)
    ensures
        match uninitialized_read(*e, name_set(assigned@)) {
            None => r is Ok,
            Some(v) => r matches Err(d) && diag_is(d, "E_UNINITIALIZED"@, at@, v),
        },
{
    let mut read: Vec<String> = Vec::new();
    reads(e, &mut read);
    proof {
        assert(name_set(read@) =~= expr_reads(*e)) by {
            assert(name_set(Seq::<String>::empty()) =~= Set::empty());
        }
    }
    let ghost pending = expr_reads(*e).difference(name_set(assigned@));
    let mut best: Option<usize> = None;
    let mut i: usize = 0;
    while i < read.len()
        invariant
            i <= read@.len(),
            name_set(read@) == expr_reads(*e),
            pending == expr_reads(*e).difference(name_set(assigned@)),
            match best {
                None => forall|j: int| 0 <= j < i ==> !pending.contains((#[trigger] read@[j])@),
                Some(b) => b < i && pending.contains(read@[b as int]@) && forall|j: int|
                    0 <= j < i && pending.contains((#[trigger] read@[j])@) ==> read@[j]@ == read@[b as int]@
                        || name_less(read@[b as int]@, read@[j]@),
            },
        decreases read@.len() - i,
    {
        let mut known = false;
        let mut k: usize = 0;
        while k < assigned.len()
            invariant
                i < read@.len(),
                k <= assigned@.len(),
                known == exists|m: int| 0 <= m < k && (#[trigger] assigned@[m])@ == read@[i as int]@,
            decreases assigned@.len() - k,
        {
            if str_eq(assigned[k].as_str(), read[i].as_str()) {
                known = true;
            }
            k = k + 1;
        }
        proof {
            assert(name_set(read@).contains(read@[i as int]@));
            if known {
                assert(name_set(assigned@).contains(read@[i as int]@));
                assert(!pending.contains(read@[i as int]@));
            } else {
                assert(!name_set(assigned@).contains(read@[i as int]@));
                assert(pending.contains(read@[i as int]@));
            }
        }
        if !known {
            match best {
                None => {
                    best = Some(i);
                },
                Some(b) => {
                    if less(read[i].as_str(), read[b].as_str()) {
                        proof {
                            assert forall|j: int| 0 <= j <= i && pending.contains((#[trigger] read@[j])@) implies read@[j]@ == read@[i as int]@
                                || name_less(read@[i as int]@, read@[j]@) by {
                                if j < i && read@[j]@ != read@[b as int]@ {
                                    lemma_bytes_less_trans(utf8_bytes(read@[i as int]@), utf8_bytes(read@[b as int]@), utf8_bytes(read@[j]@));
                                }
                            }
                        }
                        best = Some(i);
                    } else {
                        proof {
                            if read@[i as int]@ != read@[b as int]@ {
                                lemma_bytes_less_total(utf8_bytes(read@[i as int]@), utf8_bytes(read@[b as int]@));
                                if utf8_bytes(read@[i as int]@) == utf8_bytes(read@[b as int]@) {
                                    crate::strings::lemma_utf8_injective(read@[i as int]@, read@[b as int]@);
                                }
                            }
                        }
                    }
                },
            }
        }
        i = i + 1;
    }
    match best {
        None => {
            proof {
                assert(pending =~= Set::empty()) by {
                    assert forall|x: Seq<char>| !pending.contains(x) by {
                        if pending.contains(x) {
                            assert(name_set(read@).contains(x));
                            let c = choose|c: int| 0 <= c < read@.len() && (#[trigger] read@[c])@ == x;
                        }
                    }
                }
            }
            Ok(())
        },
        Some(b) => {
            proof {
                let v = read@[b as int]@;
                assert(forall|w: Seq<char>| #[trigger] pending.contains(w) && w != v ==> name_less(v, w)) by {
                    assert forall|w: Seq<char>| #[trigger] pending.contains(w) && w != v implies name_less(v, w) by {
                        assert(name_set(read@).contains(w));
                        let c = choose|c: int| 0 <= c < read@.len() && (#[trigger] read@[c])@ == w;
                    }
                }
                let u = uninitialized_read(*e, name_set(assigned@));
                assert(!pending.is_empty()) by {
                    assert(pending.contains(v));
                }
                let ch = choose|x: Seq<char>| pending.contains(x) && forall|w: Seq<char>| #[trigger] pending.contains(w) && w != x ==> name_less(x, w);
                assert(pending.contains(ch) && forall|w: Seq<char>| #[trigger] pending.contains(w) && w != ch ==> name_less(ch, w));
                if ch != v {
                    assert(name_less(v, ch));
                    assert(name_less(ch, v));
                    lemma_bytes_less_total(utf8_bytes(v), utf8_bytes(ch));
                }
            }
            Err(Diagnostic::new("E_UNINITIALIZED", at, read[b].as_str()))
        },
    }
}

/// The blocks a terminator may continue at, in table order.
pub open spec fn successors(t: Terminator) -> Seq<Seq<char>> {
    match t {
        Terminator::Goto { target } => seq![target@],
        Terminator::Branch { yes, no, .. } => seq![yes@, no@],
        Terminator::Switch { cases, default, .. } => cases@.map_values(|c: (String, String)| c.1@).push(default@),
        Terminator::Call { next, .. } => seq![next@],
        Terminator::Activate { next, .. } => seq![next@],
        Terminator::Await { next, on_cancelled, on_failed, .. } => seq![next@, on_cancelled@, on_failed@],
        Terminator::Interact { branches, on_empty, .. } => branches@.map_values(|c: (String, String)| c.1@).push(on_empty@),
        _ => Seq::empty(),
    }
}

fn second_views(v: &Vec<(String, String)>, last: &String) -> (r: Vec<String>)
    ensures
        r@.map_values(|s: String| s@) == v@.map_values(|c: (String, String)| c.1@).push(last@),
{
    let mut r: Vec<String> = Vec::new();
    let mut i: usize = 0;
    while i < v.len()
        invariant
            i <= v@.len(),
            r@.len() == i,
            forall|j: int| 0 <= j < i ==> (#[trigger] r@[j])@ == v@[j].1@,
        decreases v@.len() - i,
    {
        r.push(v[i].1.clone());
        i = i + 1;
    }
    r.push(last.clone());
    assert(r@.map_values(|s: String| s@) =~= v@.map_values(|c: (String, String)| c.1@).push(last@));
    r
}

/// The blocks a terminator may continue at.
pub fn outgoing(t: &Terminator) -> (r: Vec<String>)
    ensures
        r@.map_values(|s: String| s@) == successors(*t),
{
    let r = match t {
        Terminator::Goto { target } => vec![target.clone()],
        Terminator::Branch { yes, no, .. } => vec![yes.clone(), no.clone()],
        Terminator::Switch { cases, default, .. } => second_views(cases, default),
        Terminator::Call { next, .. } => vec![next.clone()],
        Terminator::Activate { next, .. } => vec![next.clone()],
        Terminator::Await { next, on_cancelled, on_failed, .. } => vec![next.clone(), on_cancelled.clone(), on_failed.clone()],
        Terminator::Interact { branches, on_empty, .. } => second_views(branches, on_empty),
        _ => Vec::new(),
    };
    proof {
        assert(r@.map_values(|s: String| s@) =~= successors(*t));
    }
    r
}

/// The expressions a terminator evaluates, in order.
pub open spec fn terminator_exprs(t: Terminator) -> Seq<Expr> {
    match t {
        Terminator::Branch { condition, .. } => seq![condition],
        Terminator::Switch { value, .. } => seq![value],
        Terminator::Call { args, .. } => args@.map_values(|a: (String, Expr)| a.1),
        Terminator::Return { value } => match value {
            Some(v) => seq![v],
            None => Seq::empty(),
        },
        _ => Seq::empty(),
    }
}

/// The expressions a terminator evaluates.
pub fn term_exprs(t: &Terminator) -> (r: Vec<&Expr>)
    ensures
        r@.len() == terminator_exprs(*t).len(),
        forall|i: int| 0 <= i < r@.len() ==> *r@[i] == terminator_exprs(*t)[i],
{
    match t {
        Terminator::Branch { condition, .. } => vec![condition],
        Terminator::Switch { value, .. } => vec![value],
        Terminator::Call { args, .. } => {
            let mut r: Vec<&Expr> = Vec::new();
            let mut i: usize = 0;
            while i < args.len()
                invariant
                    i <= args@.len(),
                    r@.len() == i,
                    forall|j: int| 0 <= j < i ==> *r@[j] == args@[j].1,
                decreases args@.len() - i,
            {
                r.push(&args[i].1);
                i = i + 1;
            }
            r
        },
        Terminator::Return { value } => match value {
            Some(v) => vec![v],
            None => Vec::new(),
        },
        _ => Vec::new(),
    }
}

/// The operand and result types of the binary operators: when the left
/// operand types as `l` and the right one as `r`, arithmetic takes two
/// integers to an integer, a comparison takes two integers to a flag, `==`
/// and `!=` take two values of one type to a flag, `&&` and `||` take two
/// flags to a flag and `++` two strings to a string; any other pairing is a
/// type error at `at`.
pub proof fn binary_operator_types(
    op: BinaryOp,
    left: Expr,
    right: Expr,
    vars: Seq<(String, ValueType)>,
    at: Seq<char>,
    l: ValueType,
    r: ValueType,
)
    requires
        typing(left, vars, at) == Ok::<ValueType, DiagText>(l),
        typing(right, vars, at) == Ok::<ValueType, DiagText>(r),
    ensures
        ({
            let t = typing(Expr::Binary { op, left: Box::new(left), right: Box::new(right) }, vars, at);
            let mismatch = Err::<ValueType, DiagText>(("E_TYPE"@, at, "binary operand types disagree"@));
            let ints = l == ValueType::I32 && r == ValueType::I32;
            &&& (op is Add || op is Sub || op is Mul || op is Div || op is Rem)
                ==> t == if ints { Ok::<ValueType, DiagText>(ValueType::I32) } else { mismatch }
            &&& (op is Lt || op is Le || op is Gt || op is Ge)
                ==> t == if ints { Ok::<ValueType, DiagText>(ValueType::Bool) } else { mismatch }
            &&& (op is Eq || op is Ne) ==> t == if l == r { Ok::<ValueType, DiagText>(ValueType::Bool) } else { mismatch }
            &&& (op is And || op is Or) ==> t == if l == ValueType::Bool && r == ValueType::Bool {
                Ok::<ValueType, DiagText>(ValueType::Bool)
            } else {
                mismatch
            }
            &&& op is Concat ==> t == if l == ValueType::String && r == ValueType::String {
                Ok::<ValueType, DiagText>(ValueType::String)
            } else {
                mismatch
            }
        }),
{
}

} // verus!
