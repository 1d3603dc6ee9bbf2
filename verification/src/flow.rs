//! Checks of one script function against the program it is loaded into:
//! its blocks and edges, the typing of its operations and terminators, the
//! ownership of what it activates, waits for and offers, and definite
//! assignment.
use crate::assoc::{assoc, assoc_keys, contains_name, get_entry, lemma_assoc_absent, lemma_assoc_some, position_of, put_entry};
use crate::expr::{expr_type, lookup_var, typing, var_type};
use crate::expr::{outgoing, successors, term_exprs, terminator_exprs};
use crate::format::{fails_with, Block, Choice, Function, Cue, Diagnostic, Effect, EffectDef, Expr, Milestone, Op, Operation, Terminator, TextContract, ValueType, WaitCondition};
use crate::assigned::{check_definite, definite_error, initial_set};
use crate::strings::{concat3, str_eq};
use crate::scene::f32_finite;
use crate::table::names_in;
use crate::text::DiagText;
use vstd::prelude::*;
use vstd::string::*;

verus! {

/// The parameter list and result type a call site is checked against.
#[derive(Debug, Clone)]
pub struct Signature {
    pub params: Vec<(String, ValueType)>,
    pub returns: Option<ValueType>,
}

/// The first of two verdicts that finds an error.
pub open spec fn or_else(a: Option<DiagText>, b: Option<DiagText>) -> Option<DiagText> {
    match a {
        Some(d) => Some(d),
        None => b,
    }
}

/// `r` reports the error `e`, or succeeds when there is none.
pub open spec fn reports(r: Result<(), Diagnostic>, e: Option<DiagText>) -> bool {
    match e {
        Some(d) => fails_with(r, d.0, d.1, d.2),
        None => r is Ok,
    }
}

/// `c` is an ASCII decimal digit.
pub open spec fn is_digit(c: char) -> bool {
    48 <= (c as u32) <= 57
}

/// Every character of `s` is a decimal digit.
pub open spec fn all_digits(s: Seq<char>) -> bool {
    forall|i: int| 0 <= i < s.len() ==> is_digit(#[trigger] s[i])
}

/// The number a string of decimal digits denotes.
pub open spec fn digits_value(s: Seq<char>) -> int
    decreases s.len(),
{
    if s.len() == 0 {
        0
    } else {
        10 * digits_value(s.drop_last()) + ((s.last() as u32) - 48)
    }
}

/// `s` reads as an `i32` the way `str::parse::<i32>` reads one: an optional
/// `+` or `-`, then one or more decimal digits, with a value in range.
pub open spec fn parses_as_i32(s: Seq<char>) -> bool {
    let signed = s.len() > 0 && (s[0] == '+' || s[0] == '-');
    let body = if signed { s.drop_first() } else { s };
    let limit: int = if s.len() > 0 && s[0] == '-' { 2147483648 } else { 2147483647 };
    &&& body.len() > 0
    &&& all_digits(body)
    &&& digits_value(body) <= limit
}

proof fn lemma_digits_grow(s: Seq<char>, k: int)
    requires
        all_digits(s),
        0 <= k <= s.len(),
    ensures
        0 <= digits_value(s.subrange(0, k)) <= digits_value(s),
    decreases s.len(),
{
    if s.len() > 0 {
        assert(all_digits(s.drop_last()));
        if k < s.len() {
            assert(s.drop_last().subrange(0, k) =~= s.subrange(0, k));
            lemma_digits_grow(s.drop_last(), k);
        } else {
            assert(s.subrange(0, k) =~= s);
            lemma_digits_grow(s.drop_last(), k - 1);
            assert(s.drop_last().subrange(0, k - 1) =~= s.drop_last());
        }
        assert(is_digit(s[s.len() - 1]));
    } else {
        assert(s.subrange(0, k) =~= s);
    }
}

/// Whether a switch key reads as an `i32`.
pub fn parses_i32(s: &str) -> (r: bool)
    ensures
        r == parses_as_i32(s@),
{
    let n = s.unicode_len();
    if n == 0 {
        return false;
    }
    let c0 = s.get_char(0);
    let signed = c0 == '+' || c0 == '-';
    let start: usize = if signed { 1 } else { 0 };
    let limit: u64 = if c0 == '-' { 2147483648 } else { 2147483647 };
    let ghost body = if signed { s@.drop_first() } else { s@ };
    proof {
        assert(body =~= s@.subrange(start as int, n as int));
    }
    if start == n {
        return false;
    }
    let mut v: u64 = 0;
    let mut i: usize = start;
    proof {
        assert(s@.subrange(start as int, start as int) =~= Seq::<char>::empty());
    }
    while i < n
        invariant
            start <= i <= n,
            n == s@.len(),
            body =~= s@.subrange(start as int, n as int),
            body == (if s@.len() > 0 && (s@[0] == '+' || s@[0] == '-') { s@.drop_first() } else { s@ }),
            body.len() > 0,
            limit == (if s@.len() > 0 && s@[0] == '-' { 2147483648int } else { 2147483647int }),
            all_digits(s@.subrange(start as int, i as int)),
            v == digits_value(s@.subrange(start as int, i as int)),
            v <= limit,
        decreases n - i,
    {
        let c = s.get_char(i);
        let code = c as u32;
        if code < 48 || code > 57 {
            proof {
                assert(body[i - start] == c);
                assert(!is_digit(body[i - start]));
            }
            return false;
        }
        proof {
            let pre = s@.subrange(start as int, i + 1);
            assert(pre.drop_last() =~= s@.subrange(start as int, i as int));
            assert(pre.last() == c);
            assert(all_digits(pre)) by {
                assert forall|j: int| 0 <= j < pre.len() implies is_digit(#[trigger] pre[j]) by {
                    if j < pre.len() - 1 {
                        assert(pre[j] == s@.subrange(start as int, i as int)[j]);
                    }
                }
            }
        }
        v = v * 10 + (code - 48) as u64;
        if v > limit {
            proof {
                let pre = s@.subrange(start as int, i + 1);
                if all_digits(body) {
                    lemma_digits_grow(body, i + 1 - start);
                    assert(body.subrange(0, i + 1 - start) =~= pre);
                }
            }
            return false;
        }
        i = i + 1;
    }
    proof {
        assert(s@.subrange(start as int, n as int) =~= body);
    }
    true
}

/// The error of one operation, reported at its id: an assignment whose value
/// does not type or does not match its target, a random draw into a
/// non-`I32` target or with bounds out of order, or a patch to a non-finite
/// value.
pub open spec fn op_error(vars: Seq<(String, ValueType)>, op: Op) -> Option<DiagText> {
    match op.operation {
        Operation::Assign { target, value } => match typing(value, vars, op.id@) {
            Err(d) => Some(d),
            Ok(t) => if var_type(vars, target@) == Some(t) {
                None
            } else {
                Some(("E_TYPE"@, op.id@, target@))
            },
        },
        Operation::Random { target, min, max } => if var_type(vars, target@) != Some(ValueType::I32) || min > max {
            Some(("E_RANDOM"@, op.id@, "invalid bounds/target"@))
        } else {
            None
        },
        Operation::DraftPatch { value_bits, .. } => if f32_finite(value_bits) {
            None
        } else {
            Some(("E_VISUAL"@, op.id@, "non-finite patch"@))
        },
        _ => None,
    }
}

fn check_op(vars: &Vec<(String, ValueType)>, op: &Op) -> (r: Result<(), Diagnostic>)
    ensures
        reports(r, op_error(vars@, *op)),
{
    match &op.operation {
        Operation::Assign { target, value } => {
            let t = expr_type(value, vars, op.id.as_str())?;
            match lookup_var(vars, target) {
                Some(d) => {
                    if d == t {
                        Ok(())
                    } else {
                        Err(Diagnostic::new("E_TYPE", op.id.as_str(), target.as_str()))
                    }
                },
                None => Err(Diagnostic::new("E_TYPE", op.id.as_str(), target.as_str())),
            }
        },
        Operation::Random { target, min, max } => {
            let ok = match lookup_var(vars, target) {
                Some(ValueType::I32) => *min <= *max,
                _ => false,
            };
            if ok {
                Ok(())
            } else {
                Err(Diagnostic::new("E_RANDOM", op.id.as_str(), "invalid bounds/target"))
            }
        },
        Operation::DraftPatch { value_bits, .. } => {
            let b = *value_bits;
            if b < 0x7f80_0000u32 || (0x8000_0000u32 <= b && b < 0xff80_0000u32) {
                Ok(())
            } else {
                Err(Diagnostic::new("E_VISUAL", op.id.as_str(), "non-finite patch"))
            }
        },
        _ => Ok(()),
    }
}

proof fn lemma_var_type_is_assoc(v: Seq<(String, ValueType)>, x: Seq<char>)
    ensures
        var_type(v, x) == assoc(v, x),
    decreases v.len(),
{
    if v.len() > 0 {
        lemma_var_type_is_assoc(v.drop_first(), x);
    }
}

proof fn lemma_var_type_push(v: Seq<(String, ValueType)>, p: (String, ValueType), x: Seq<char>)
    ensures
        var_type(v.push(p), x) == (if var_type(v, x) is Some { var_type(v, x) } else if p.0@ == x { Some(p.1) } else { None }),
    decreases v.len(),
{
    let w = v.push(p);
    if v.len() > 0 {
        assert(w[0] == v[0]);
        assert(w.drop_first() =~= v.drop_first().push(p));
        lemma_var_type_push(v.drop_first(), p, x);
        if v[0].0@ == x {
            assert(var_type(w, x) == Some(v[0].1));
            assert(var_type(v, x) == Some(v[0].1));
        } else {
            assert(var_type(w, x) == var_type(w.drop_first(), x));
            assert(var_type(v, x) == var_type(v.drop_first(), x));
        }
    } else {
        assert(w[0] == p);
        assert(w.drop_first() =~= Seq::<(String, ValueType)>::empty());
        assert(var_type(w.drop_first(), x) is None);
        assert(var_type(v, x) is None);
    }
}

/// The first parameter or local, among the first `k` of `own`, whose name is
/// a program variable or that of an earlier parameter or local.
pub open spec fn decls_error(globals: Seq<(String, ValueType)>, own: Seq<(String, ValueType)>, fid: Seq<char>, k: int) -> Option<DiagText>
    decreases k,
{
    if k <= 0 {
        None
    } else {
        or_else(decls_error(globals, own, fid, k - 1), if var_type(globals, own[k - 1].0@) is Some
            || exists|j: int| 0 <= j < k - 1 && (#[trigger] own[j]).0@ == own[k - 1].0@ {
            Some(("E_DUPLICATE"@, fid, own[k - 1].0@))
        } else {
            None
        })
    }
}

proof fn lemma_decls_error_stays(globals: Seq<(String, ValueType)>, own: Seq<(String, ValueType)>, fid: Seq<char>, k: int, m: int)
    requires
        0 <= k <= m,
        decls_error(globals, own, fid, k) is Some,
    ensures
        decls_error(globals, own, fid, m) == decls_error(globals, own, fid, k),
    decreases m - k,
{
    if k < m {
        lemma_decls_error_stays(globals, own, fid, k, m - 1);
    }
}

/// Builds the variables a function sees, the program's first, then the
/// parameters and locals, refusing a name that is already declared.
fn declare_vars(globals: &Vec<(String, ValueType)>, own: &Vec<(String, ValueType)>, fid: &str) -> (r: Result<Vec<(String, ValueType)>, Diagnostic>)
    ensures
        match decls_error(globals@, own@, fid@, own@.len() as int) {
            Some(d) => fails_with(r, d.0, d.1, d.2),
            None => r matches Ok(v) && v@ == globals@ + own@,
        },
{
    let mut vars: Vec<(String, ValueType)> = Vec::new();
    let mut g: usize = 0;
    while g < globals.len()
        invariant
            g <= globals@.len(),
            vars@ == globals@.subrange(0, g as int),
        decreases globals@.len() - g,
    {
        vars.push((globals[g].0.clone(), globals[g].1));
        proof {
            assert(globals@.subrange(0, g + 1) =~= globals@.subrange(0, g as int).push(globals@[g as int]));
        }
        g = g + 1;
    }
    proof {
        assert(globals@.subrange(0, globals@.len() as int) =~= globals@);
    }
    let mut k: usize = 0;
    while k < own.len()
        invariant
            k <= own@.len(),
            vars@ == globals@ + own@.subrange(0, k as int),
            decls_error(globals@, own@, fid@, k as int) is None,
        decreases own@.len() - k,
    {
        let name = &own[k].0;
        if lookup_var(&vars, name).is_some() {
            proof {
                let x = name@;
                lemma_var_type_is_assoc(vars@, x);
                lemma_var_type_is_assoc(globals@, x);
                lemma_assoc_some(vars@, x);
                let i = choose|i: int| 0 <= i < vars@.len() && (#[trigger] vars@[i]).0@ == x;
                if var_type(globals@, x) is None {
                    lemma_assoc_some(globals@, x);
                    if i < globals@.len() {
                        assert(vars@[i] == globals@[i]);
                        assert(assoc_keys(globals@).contains(x));
                    }
                    assert(own@[i - globals@.len()].0@ == x);
                }
                lemma_decls_error_stays(globals@, own@, fid@, k as int + 1, own@.len() as int);
            }
            return Err(Diagnostic::new("E_DUPLICATE", fid, name.as_str()));
        }
        proof {
            let x = name@;
            lemma_var_type_is_assoc(vars@, x);
            lemma_var_type_is_assoc(globals@, x);
            lemma_assoc_some(vars@, x);
            assert(var_type(globals@, x) is None) by {
                lemma_assoc_some(vars@, x);
                lemma_assoc_some(globals@, x);
                if assoc_keys(globals@).contains(x) {
                    let i = choose|i: int| 0 <= i < globals@.len() && (#[trigger] globals@[i]).0@ == x;
                    assert(vars@[i] == globals@[i]);
                }
            }
            assert forall|j: int| 0 <= j < k implies (#[trigger] own@[j]).0@ != x by {
                lemma_assoc_some(vars@, x);
                assert(vars@[globals@.len() + j] == own@[j]);
                if own@[j].0@ == x {
                    assert(assoc_keys(vars@).contains(x));
                }
            }
        }
        vars.push((own[k].0.clone(), own[k].1));
        proof {
            assert(globals@ + own@.subrange(0, k + 1) =~= (globals@ + own@.subrange(0, k as int)).push(own@[k as int]));
        }
        k = k + 1;
    }
    proof {
        assert(own@.subrange(0, own@.len() as int) =~= own@);
    }
    Ok(vars)
}

/// The first of the first `k` targets that names no block.
pub open spec fn missing_target(blocks: Seq<(String, Block)>, ts: Seq<Seq<char>>, k: int) -> Option<Seq<char>>
    decreases k,
{
    if k <= 0 {
        None
    } else {
        match missing_target(blocks, ts, k - 1) {
            Some(x) => Some(x),
            None => if assoc_keys(blocks).contains(ts[k - 1]) {
                None
            } else {
                Some(ts[k - 1])
            },
        }
    }
}

proof fn lemma_missing_target_stays(blocks: Seq<(String, Block)>, ts: Seq<Seq<char>>, k: int, m: int)
    requires
        0 <= k <= m,
        missing_target(blocks, ts, k) is Some,
    ensures
        missing_target(blocks, ts, m) == missing_target(blocks, ts, k),
    decreases m - k,
{
    if k < m {
        lemma_missing_target_stays(blocks, ts, k, m - 1);
    }
}

/// A terminator that continues at a block the function does not have.
pub open spec fn target_error(blocks: Seq<(String, Block)>, t: Terminator, at: Seq<char>) -> Option<DiagText> {
    match missing_target(blocks, successors(t), successors(t).len() as int) {
        Some(x) => Some(("E_BLOCK"@, at, x)),
        None => None,
    }
}

fn check_targets(blocks: &Vec<(String, Block)>, t: &Terminator, at: &str) -> (r: Result<(), Diagnostic>)
    ensures
        reports(r, target_error(blocks@, *t, at@)),
{
    let ts = outgoing(t);
    let ghost sv = successors(*t);
    let mut k: usize = 0;
    while k < ts.len()
        invariant
            k <= ts@.len(),
            ts@.map_values(|s: String| s@) == sv,
            sv == successors(*t),
            missing_target(blocks@, sv, k as int) is None,
        decreases ts@.len() - k,
    {
        assert(sv[k as int] == ts@[k as int]@);
        if position_of(blocks, ts[k].as_str()).is_none() {
            proof {
                lemma_missing_target_stays(blocks@, sv, k as int + 1, sv.len() as int);
            }
            return Err(Diagnostic::new("E_BLOCK", at, ts[k].as_str()));
        }
        k = k + 1;
    }
    Ok(())
}

proof fn lemma_names_push(v: Seq<String>, x: String)
    ensures
        names_in(v.push(x)) == names_in(v).insert(x@),
{
    assert forall|y: Seq<char>| names_in(v.push(x)).contains(y) <==> names_in(v).insert(x@).contains(y) by {
        if names_in(v.push(x)).contains(y) {
            let j = choose|j: int| 0 <= j < v.len() + 1 && (#[trigger] v.push(x)[j])@ == y;
            if j < v.len() {
                assert(v[j]@ == y);
            }
        }
        if names_in(v).contains(y) {
            let j = choose|j: int| 0 <= j < v.len() && (#[trigger] v[j])@ == y;
            assert(v.push(x)[j]@ == y);
        }
        if y == x@ {
            assert(v.push(x)[v.len() as int]@ == y);
        }
    }
    assert(names_in(v.push(x)) =~= names_in(v).insert(x@));
}

/// The ids of a list of operations.
pub open spec fn op_ids(ops: Seq<Op>) -> Set<Seq<char>> {
    Set::new(|x: Seq<char>| exists|j: int| 0 <= j < ops.len() && (#[trigger] ops[j]).id@ == x)
}

/// The ids of the operations of the first `i` blocks.
pub open spec fn ids_before(blocks: Seq<(String, Block)>, i: int) -> Set<Seq<char>>
    decreases i,
{
    if i <= 0 {
        Set::empty()
    } else {
        ids_before(blocks, i - 1).union(op_ids(blocks[i - 1].1.ops@))
    }
}

/// The first error among the first `k` operations of a block: an id used
/// before (in `prior` or earlier in the block), or an operation error.
pub open spec fn ops_error(vars: Seq<(String, ValueType)>, ops: Seq<Op>, prior: Set<Seq<char>>, at: Seq<char>, k: int) -> Option<DiagText>
    decreases k,
{
    if k <= 0 {
        None
    } else {
        or_else(ops_error(vars, ops, prior, at, k - 1), if prior.contains(ops[k - 1].id@)
            || exists|j: int| 0 <= j < k - 1 && (#[trigger] ops[j]).id@ == ops[k - 1].id@ {
            Some(("E_DUPLICATE"@, at, ops[k - 1].id@))
        } else {
            op_error(vars, ops[k - 1])
        })
    }
}

proof fn lemma_ops_error_stays(vars: Seq<(String, ValueType)>, ops: Seq<Op>, prior: Set<Seq<char>>, at: Seq<char>, k: int, m: int)
    requires
        0 <= k <= m,
        ops_error(vars, ops, prior, at, k) is Some,
    ensures
        ops_error(vars, ops, prior, at, m) == ops_error(vars, ops, prior, at, k),
    decreases m - k,
{
    if k < m {
        lemma_ops_error_stays(vars, ops, prior, at, k, m - 1);
    }
}

fn check_ops(vars: &Vec<(String, ValueType)>, ops: &Vec<Op>, ids: &mut Vec<String>, at: &str) -> (r: Result<(), Diagnostic>)
    ensures
        reports(r, ops_error(vars@, ops@, names_in(old(ids)@), at@, ops@.len() as int)),
        r is Ok ==> names_in(final(ids)@) == names_in(old(ids)@).union(op_ids(ops@)),
{
    let ghost prior = names_in(old(ids)@);
    let mut k: usize = 0;
    while k < ops.len()
        invariant
            k <= ops@.len(),
            prior == names_in(old(ids)@),
            names_in(ids@) == prior.union(op_ids(ops@.subrange(0, k as int))),
            ops_error(vars@, ops@, prior, at@, k as int) is None,
        decreases ops@.len() - k,
    {
        let op = &ops[k];
        if contains_name(ids, op.id.as_str()) {
            proof {
                let x = op.id@;
                if !prior.contains(x) {
                    assert(op_ids(ops@.subrange(0, k as int)).contains(x));
                    let j = choose|j: int| 0 <= j < k && (#[trigger] ops@.subrange(0, k as int)[j]).id@ == x;
                    assert(ops@[j].id@ == x);
                }
                lemma_ops_error_stays(vars@, ops@, prior, at@, k as int + 1, ops@.len() as int);
            }
            return Err(Diagnostic::new("E_DUPLICATE", at, op.id.as_str()));
        }
        proof {
            let x = op.id@;
            assert forall|j: int| 0 <= j < k implies (#[trigger] ops@[j]).id@ != x by {
                if ops@[j].id@ == x {
                    assert(ops@.subrange(0, k as int)[j] == ops@[j]);
                    assert(op_ids(ops@.subrange(0, k as int)).contains(x));
                }
            }
        }
        match check_op(vars, op) {
            Ok(()) => {},
            Err(d) => {
                proof {
                    lemma_ops_error_stays(vars@, ops@, prior, at@, k as int + 1, ops@.len() as int);
                }
                return Err(d);
            },
        }
        let ghost before = ids@;
        ids.push(op.id.clone());
        proof {
            assert(names_in(ids@) =~= prior.union(op_ids(ops@.subrange(0, k + 1)))) by {
                assert forall|x: Seq<char>| op_ids(ops@.subrange(0, k + 1)).contains(x) <==> (op_ids(ops@.subrange(0, k as int)).contains(x) || x == op.id@) by {
                    if op_ids(ops@.subrange(0, k + 1)).contains(x) {
                        let j = choose|j: int| 0 <= j < k + 1 && (#[trigger] ops@.subrange(0, k + 1)[j]).id@ == x;
                        if j < k {
                            assert(ops@.subrange(0, k as int)[j] == ops@.subrange(0, k + 1)[j]);
                        }
                    }
                    if op_ids(ops@.subrange(0, k as int)).contains(x) {
                        let j = choose|j: int| 0 <= j < k && (#[trigger] ops@.subrange(0, k as int)[j]).id@ == x;
                        assert(ops@.subrange(0, k + 1)[j] == ops@.subrange(0, k as int)[j]);
                    }
                    if x == op.id@ {
                        assert(ops@.subrange(0, k + 1)[k as int] == ops@[k as int]);
                    }
                }
                lemma_names_push(before, op.id);
            }
        }
        k = k + 1;
    }
    proof {
        assert(ops@.subrange(0, ops@.len() as int) =~= ops@);
    }
    Ok(())
}

/// What a function is checked against: the program's variables, the
/// signatures of the functions it may call, the module that owns it (none
/// for the root), who owns each cue, task and choice, and the cues, task
/// effects, choices and text contracts that are loaded. `runtime` is set
/// when a loaded package is checked: cues, tasks and choices must then
/// belong to the function's module, every awaited task must be loaded
/// before any milestone is looked at, and the expressions of each terminator
/// are typed once more; a whole source program is checked without it.
#[derive(Debug, Clone)]
pub struct FunctionScope<'a> {
    pub runtime: bool,
    pub variables: Vec<(String, ValueType)>,
    pub signatures: Vec<(String, Signature)>,
    pub module: Option<String>,
    pub cue_owners: Vec<(String, String)>,
    pub task_owners: Vec<(String, String)>,
    pub choice_owners: Vec<(String, String)>,
    pub cues: &'a Vec<(String, Cue)>,
    pub tasks: Vec<(String, Vec<Effect>)>,
    pub choices: &'a Vec<(String, Choice)>,
    pub texts: &'a Vec<(String, TextContract)>,
}

/// `key` belongs to `module`: both name the same owner, or neither has one.
pub open spec fn owned_here(owners: Seq<(String, String)>, key: Seq<char>, module: Option<String>) -> bool {
    match (assoc(owners, key), module) {
        (Some(o), Some(m)) => o@ == m@,
        (None, None) => true,
        _ => false,
    }
}

fn is_owned_here(owners: &Vec<(String, String)>, key: &str, module: &Option<String>) -> (r: bool)
    ensures
        r == owned_here(owners@, key@, *module),
{
    match (get_entry(owners, key), module) {
        (Some(o), Some(m)) => str_eq(o.as_str(), m.as_str()),
        (None, None) => true,
        _ => false,
    }
}

/// The first error among the first `k` parameters of a call: a parameter
/// without an argument, or an argument that does not type or has another
/// type.
pub open spec fn args_error(vars: Seq<(String, ValueType)>, args: Seq<(String, Expr)>, params: Seq<(String, ValueType)>, at: Seq<char>, k: int) -> Option<DiagText>
    decreases k,
{
    if k <= 0 {
        None
    } else {
        or_else(args_error(vars, args, params, at, k - 1), match assoc(args, params[k - 1].0@) {
            None => Some(("E_CALL"@, at, params[k - 1].0@)),
            Some(e) => match typing(e, vars, at) {
                Err(d) => Some(d),
                Ok(t) => if t == params[k - 1].1 {
                    None
                } else {
                    Some(("E_TYPE"@, at, params[k - 1].0@))
                },
            },
        })
    }
}

proof fn lemma_args_error_stays(vars: Seq<(String, ValueType)>, args: Seq<(String, Expr)>, params: Seq<(String, ValueType)>, at: Seq<char>, k: int, m: int)
    requires
        0 <= k <= m,
        args_error(vars, args, params, at, k) is Some,
    ensures
        args_error(vars, args, params, at, m) == args_error(vars, args, params, at, k),
    decreases m - k,
{
    if k < m {
        lemma_args_error_stays(vars, args, params, at, k, m - 1);
    }
}

/// The error of a call: an unknown function, another number of arguments
/// than it has parameters, an argument error, or a result stored in a
/// variable of another type than the function returns.
pub open spec fn call_error(s: FunctionScope, vars: Seq<(String, ValueType)>, function: Seq<char>, args: Seq<(String, Expr)>, result: Option<String>, at: Seq<char>) -> Option<DiagText> {
    match assoc(s.signatures@, function) {
        None => Some(("E_FUNCTION"@, at, function)),
        Some(sig) => if args.len() != sig.params@.len() {
            Some(("E_CALL"@, at, "argument count"@))
        } else {
            or_else(args_error(vars, args, sig.params@, at, sig.params@.len() as int), match result {
                Some(t) => if var_type(vars, t@) == sig.returns {
                    None
                } else {
                    Some(("E_TYPE"@, at, "return target"@))
                },
                None => None,
            })
        },
    }
}

fn check_call(s: &FunctionScope, vars: &Vec<(String, ValueType)>, function: &String, args: &Vec<(String, Expr)>, result: &Option<String>, at: &str) -> (r: Result<(), Diagnostic>)
    ensures
        reports(r, call_error(*s, vars@, function@, args@, *result, at@)),
{
    let sig = match get_entry(&s.signatures, function.as_str()) {
        Some(sig) => sig,
        None => {
            return Err(Diagnostic::new("E_FUNCTION", at, function.as_str()));
        },
    };
    if args.len() != sig.params.len() {
        return Err(Diagnostic::new("E_CALL", at, "argument count"));
    }
    let mut k: usize = 0;
    while k < sig.params.len()
        invariant
            k <= sig.params@.len(),
            assoc(s.signatures@, function@) == Some(*sig),
            args@.len() == sig.params@.len(),
            args_error(vars@, args@, sig.params@, at@, k as int) is None,
        decreases sig.params@.len() - k,
    {
        let p = &sig.params[k];
        let e = match get_entry(args, p.0.as_str()) {
            Some(e) => e,
            None => {
                proof {
                    lemma_args_error_stays(vars@, args@, sig.params@, at@, k as int + 1, sig.params@.len() as int);
                }
                return Err(Diagnostic::new("E_CALL", at, p.0.as_str()));
            },
        };
        let t = match expr_type(e, vars, at) {
            Ok(t) => t,
            Err(d) => {
                proof {
                    lemma_args_error_stays(vars@, args@, sig.params@, at@, k as int + 1, sig.params@.len() as int);
                }
                return Err(d);
            },
        };
        if t != p.1 {
            proof {
                lemma_args_error_stays(vars@, args@, sig.params@, at@, k as int + 1, sig.params@.len() as int);
            }
            return Err(Diagnostic::new("E_TYPE", at, p.0.as_str()));
        }
        k = k + 1;
    }
    match result {
        Some(target) => {
            let ok = match (lookup_var(vars, target), sig.returns) {
                (Some(a), Some(b)) => a == b,
                (None, None) => true,
                _ => false,
            };
            if !ok {
                return Err(Diagnostic::new("E_TYPE", at, "return target"));
            }
        },
        None => {},
    }
    Ok(())
}

/// A wait on `task` that the function may not make: the task belongs to
/// another module, or no definition of it is loaded.
pub open spec fn task_refused(s: FunctionScope, task: Seq<char>) -> bool {
    !owned_here(s.task_owners@, task, s.module) || assoc(s.tasks@, task) is None
}

/// The error of a terminator's own rule: a branch on a non-`Bool`, a switch
/// on a `Bool` or on an `I32` with a key that is no `i32`, a call error, a
/// returned value of another type than the function's, or an activated cue,
/// awaited task or offered choice that is not loaded or belongs to another
/// module (an await with no condition too). Typing errors of the examined
/// expression come first.
pub open spec fn rule_error(s: FunctionScope, vars: Seq<(String, ValueType)>, ret: Option<ValueType>, t: Terminator, at: Seq<char>) -> Option<DiagText> {
    match t {
        Terminator::Branch { condition, .. } => match typing(condition, vars, at) {
            Err(d) => Some(d),
            Ok(ty) => if ty == ValueType::Bool {
                None
            } else {
                Some(("E_TYPE"@, at, "branch requires Bool"@))
            },
        },
        Terminator::Switch { value, cases, .. } => match typing(value, vars, at) {
            Err(d) => Some(d),
            Ok(ty) => if ty == ValueType::Bool || (ty == ValueType::I32 && exists|k: int|
                0 <= k < cases@.len() && !parses_as_i32((#[trigger] cases@[k]).0@)) {
                Some(("E_TYPE"@, at, "switch requires I32 or String keys"@))
            } else {
                None
            },
        },
        Terminator::Call { function, args, result, .. } => call_error(s, vars, function@, args@, result, at),
        Terminator::Return { value } => match value {
            None => if ret is None {
                None
            } else {
                Some(("E_TYPE"@, at, "return type"@))
            },
            Some(e) => match typing(e, vars, at) {
                Err(d) => Some(d),
                Ok(ty) => if ret == Some(ty) {
                    None
                } else {
                    Some(("E_TYPE"@, at, "return type"@))
                },
            },
        },
        Terminator::Activate { cue, .. } => if (!s.runtime || owned_here(s.cue_owners@, cue@, s.module)) && assoc(s.cues@, cue@) is Some {
            None
        } else {
            Some(("E_CUE"@, at, cue@))
        },
        Terminator::Await { conditions, .. } => if !s.runtime {
            if conditions@.len() == 0 {
                Some(("E_WAIT"@, at, "empty All"@))
            } else {
                None
            }
        } else if conditions@.len() == 0 || exists|k: int|
            0 <= k < conditions@.len() && task_refused(s, (#[trigger] conditions@[k]).task@) {
            Some(("E_TASK"@, at, "unknown, unloaded or cross-module task wait"@))
        } else {
            None
        },
        Terminator::Interact { choice, .. } => if (!s.runtime || owned_here(s.choice_owners@, choice@, s.module)) && assoc(s.choices@, choice@) is Some {
            None
        } else {
            Some(("E_CHOICE"@, at, choice@))
        },
        _ => None,
    }
}

fn keys_are_i32(cases: &Vec<(String, String)>) -> (r: bool)
    ensures
        r == forall|k: int| 0 <= k < cases@.len() ==> parses_as_i32((#[trigger] cases@[k]).0@),
{
    let mut k: usize = 0;
    while k < cases.len()
        invariant
            k <= cases@.len(),
            forall|j: int| 0 <= j < k ==> parses_as_i32((#[trigger] cases@[j]).0@),
        decreases cases@.len() - k,
    {
        if !parses_i32(cases[k].0.as_str()) {
            return false;
        }
        k = k + 1;
    }
    true
}

fn waits_refused(s: &FunctionScope, conditions: &Vec<WaitCondition>) -> (r: bool)
    ensures
        r == exists|k: int| 0 <= k < conditions@.len() && task_refused(*s, (#[trigger] conditions@[k]).task@),
{
    let mut k: usize = 0;
    while k < conditions.len()
        invariant
            k <= conditions@.len(),
            forall|j: int| 0 <= j < k ==> !task_refused(*s, (#[trigger] conditions@[j]).task@),
        decreases conditions@.len() - k,
    {
        let task = conditions[k].task.as_str();
        if !is_owned_here(&s.task_owners, task, &s.module) || get_entry(&s.tasks, task).is_none() {
            assert(task_refused(*s, conditions@[k as int].task@));
            return true;
        }
        k = k + 1;
    }
    false
}

fn check_rule(s: &FunctionScope, vars: &Vec<(String, ValueType)>, ret: Option<ValueType>, t: &Terminator, at: &str) -> (r: Result<(), Diagnostic>)
    ensures
        reports(r, rule_error(*s, vars@, ret, *t, at@)),
{
    match t {
        Terminator::Branch { condition, .. } => {
            let ty = expr_type(condition, vars, at)?;
            if ty != ValueType::Bool {
                return Err(Diagnostic::new("E_TYPE", at, "branch requires Bool"));
            }
            Ok(())
        },
        Terminator::Switch { value, cases, .. } => {
            let ty = expr_type(value, vars, at)?;
            let bad = ty == ValueType::Bool || (ty == ValueType::I32 && !keys_are_i32(cases));
            if bad {
                return Err(Diagnostic::new("E_TYPE", at, "switch requires I32 or String keys"));
            }
            Ok(())
        },
        Terminator::Call { function, args, result, .. } => check_call(s, vars, function, args, result, at),
        Terminator::Return { value } => {
            let ok = match value {
                None => ret.is_none(),
                Some(e) => {
                    let ty = expr_type(e, vars, at)?;
                    match ret {
                        Some(x) => x == ty,
                        None => false,
                    }
                },
            };
            if !ok {
                return Err(Diagnostic::new("E_TYPE", at, "return type"));
            }
            Ok(())
        },
        Terminator::Activate { cue, .. } => {
            if (!s.runtime || is_owned_here(&s.cue_owners, cue.as_str(), &s.module)) && get_entry(s.cues, cue.as_str()).is_some() {
                Ok(())
            } else {
                Err(Diagnostic::new("E_CUE", at, cue.as_str()))
            }
        },
        Terminator::Await { conditions, .. } => {
            if !s.runtime {
                if conditions.len() == 0 {
                    return Err(Diagnostic::new("E_WAIT", at, "empty All"));
                }
                return Ok(());
            }
            let bad = conditions.len() == 0 || waits_refused(s, conditions);
            if bad {
                return Err(Diagnostic::new("E_TASK", at, "unknown, unloaded or cross-module task wait"));
            }
            Ok(())
        },
        Terminator::Interact { choice, .. } => {
            if (!s.runtime || is_owned_here(&s.choice_owners, choice.as_str(), &s.module)) && get_entry(s.choices, choice.as_str()).is_some() {
                Ok(())
            } else {
                Err(Diagnostic::new("E_CHOICE", at, choice.as_str()))
            }
        },
        _ => Ok(()),
    }
}

/// The effect plays looping audio.
pub open spec fn looped_audio(e: Effect) -> bool {
    match e {
        Effect::Audio { looped, .. } => looped,
        _ => false,
    }
}

/// The effect shows a text whose contract declares gate `m`.
pub open spec fn marks(texts: Seq<(String, TextContract)>, e: Effect, m: Seq<char>) -> bool {
    match e {
        Effect::Dialogue { text, .. } => match assoc(texts, text@) {
            Some(c) => names_in(c.gates@).contains(m),
            None => false,
        },
        _ => false,
    }
}

/// Every effect plays looping audio.
pub open spec fn all_looped(defs: Seq<Effect>) -> bool {
    forall|k: int| 0 <= k < defs.len() ==> looped_audio(#[trigger] defs[k])
}

/// Some effect shows a text that declares gate `m`.
pub open spec fn some_marked(texts: Seq<(String, TextContract)>, defs: Seq<Effect>, m: Seq<char>) -> bool {
    exists|k: int| 0 <= k < defs.len() && marks(texts, #[trigger] defs[k], m)
}

/// The error of one wait condition: waiting for a task that only plays
/// looping audio to finish, or for a marker that none of its dialogue texts
/// declares; outside a runtime check, waiting for a task that no cue
/// defines.
pub open spec fn wait_error(s: FunctionScope, c: WaitCondition, at: Seq<char>) -> Option<DiagText> {
    match assoc(s.tasks@, c.task@) {
        None => if s.runtime {
            None
        } else {
            Some(("E_TASK"@, at, c.task@))
        },
        Some(defs) => match c.milestone {
            Milestone::Finished => if all_looped(defs@) {
                Some(("E_INFINITE_WAIT"@, at, c.task@))
            } else {
                None
            },
            Milestone::Marker(m) => if some_marked(s.texts@, defs@, m@) {
                None
            } else {
                Some(("E_MILESTONE"@, at, m@))
            },
            Milestone::Started => None,
        },
    }
}

/// The first wait error among the first `k` conditions.
pub open spec fn waits_error(s: FunctionScope, cs: Seq<WaitCondition>, at: Seq<char>, k: int) -> Option<DiagText>
    decreases k,
{
    if k <= 0 {
        None
    } else {
        or_else(waits_error(s, cs, at, k - 1), wait_error(s, cs[k - 1], at))
    }
}

proof fn lemma_waits_error_stays(s: FunctionScope, cs: Seq<WaitCondition>, at: Seq<char>, k: int, m: int)
    requires
        0 <= k <= m,
        waits_error(s, cs, at, k) is Some,
    ensures
        waits_error(s, cs, at, m) == waits_error(s, cs, at, k),
    decreases m - k,
{
    if k < m {
        lemma_waits_error_stays(s, cs, at, k, m - 1);
    }
}

fn all_looped_audio(defs: &Vec<Effect>) -> (r: bool)
    ensures
        r == all_looped(defs@),
{
    let mut k: usize = 0;
    while k < defs.len()
        invariant
            k <= defs@.len(),
            forall|j: int| 0 <= j < k ==> looped_audio(#[trigger] defs@[j]),
        decreases defs@.len() - k,
    {
        let looped = match &defs[k] {
            Effect::Audio { looped, .. } => *looped,
            _ => false,
        };
        if !looped {
            return false;
        }
        k = k + 1;
    }
    true
}

fn some_marks(texts: &Vec<(String, TextContract)>, defs: &Vec<Effect>, m: &String) -> (r: bool)
    ensures
        r == some_marked(texts@, defs@, m@),
{
    let mut k: usize = 0;
    while k < defs.len()
        invariant
            k <= defs@.len(),
            forall|j: int| 0 <= j < k ==> !marks(texts@, #[trigger] defs@[j], m@),
        decreases defs@.len() - k,
    {
        let hit = match &defs[k] {
            Effect::Dialogue { text, .. } => match get_entry(texts, text.as_str()) {
                Some(c) => contains_name(&c.gates, m.as_str()),
                None => false,
            },
            _ => false,
        };
        if hit {
            return true;
        }
        k = k + 1;
    }
    false
}

fn check_waits(s: &FunctionScope, cs: &Vec<WaitCondition>, at: &str) -> (r: Result<(), Diagnostic>)
    ensures
        reports(r, waits_error(*s, cs@, at@, cs@.len() as int)),
{
    let mut k: usize = 0;
    while k < cs.len()
        invariant
            k <= cs@.len(),
            waits_error(*s, cs@, at@, k as int) is None,
        decreases cs@.len() - k,
    {
        let c = &cs[k];
        match get_entry(&s.tasks, c.task.as_str()) {
            None => {
                if !s.runtime {
                    proof {
                        lemma_waits_error_stays(*s, cs@, at@, k as int + 1, cs@.len() as int);
                    }
                    return Err(Diagnostic::new("E_TASK", at, c.task.as_str()));
                }
            },
            Some(defs) => match &c.milestone {
                Milestone::Finished => {
                    if all_looped_audio(defs) {
                        proof {
                            lemma_waits_error_stays(*s, cs@, at@, k as int + 1, cs@.len() as int);
                        }
                        return Err(Diagnostic::new("E_INFINITE_WAIT", at, c.task.as_str()));
                    }
                },
                Milestone::Marker(m) => {
                    if !some_marks(s.texts, defs, m) {
                        proof {
                            lemma_waits_error_stays(*s, cs@, at@, k as int + 1, cs@.len() as int);
                        }
                        return Err(Diagnostic::new("E_MILESTONE", at, m.as_str()));
                    }
                },
                Milestone::Started => {},
            },
        }
        k = k + 1;
    }
    Ok(())
}

/// An offered choice whose branches do not match its options one for one.
pub open spec fn coverage_error(s: FunctionScope, choice: Seq<char>, branches: Seq<(String, String)>, at: Seq<char>) -> Option<DiagText> {
    match assoc(s.choices@, choice) {
        None => None,
        Some(c) => if c.options@.len() != branches.len() || exists|k: int|
            0 <= k < c.options@.len() && !assoc_keys(branches).contains((#[trigger] c.options@[k]).id@) {
            Some(("E_CHOICE"@, at, "branch coverage"@))
        } else {
            None
        },
    }
}

fn check_coverage(s: &FunctionScope, choice: &str, branches: &Vec<(String, String)>, at: &str) -> (r: Result<(), Diagnostic>)
    ensures
        reports(r, coverage_error(*s, choice@, branches@, at@)),
{
    let c = match get_entry(s.choices, choice) {
        None => {
            return Ok(());
        },
        Some(c) => c,
    };
    if c.options.len() != branches.len() {
        return Err(Diagnostic::new("E_CHOICE", at, "branch coverage"));
    }
    let mut k: usize = 0;
    while k < c.options.len()
        invariant
            k <= c.options@.len(),
            assoc(s.choices@, choice@) == Some(*c),
            c.options@.len() == branches@.len(),
            forall|j: int| 0 <= j < k ==> assoc_keys(branches@).contains((#[trigger] c.options@[j]).id@),
        decreases c.options@.len() - k,
    {
        if position_of(branches, c.options[k].id.as_str()).is_none() {
            assert(!assoc_keys(branches@).contains(c.options@[k as int].id@));
            return Err(Diagnostic::new("E_CHOICE", at, "branch coverage"));
        }
        k = k + 1;
    }
    Ok(())
}

/// The first typing error among the first `k` expressions.
pub open spec fn exprs_error(vars: Seq<(String, ValueType)>, es: Seq<Expr>, at: Seq<char>, k: int) -> Option<DiagText>
    decreases k,
{
    if k <= 0 {
        None
    } else {
        or_else(exprs_error(vars, es, at, k - 1), match typing(es[k - 1], vars, at) {
            Err(d) => Some(d),
            Ok(_) => None,
        })
    }
}

proof fn lemma_exprs_error_stays(vars: Seq<(String, ValueType)>, es: Seq<Expr>, at: Seq<char>, k: int, m: int)
    requires
        0 <= k <= m,
        exprs_error(vars, es, at, k) is Some,
    ensures
        exprs_error(vars, es, at, m) == exprs_error(vars, es, at, k),
    decreases m - k,
{
    if k < m {
        lemma_exprs_error_stays(vars, es, at, k, m - 1);
    }
}

fn check_exprs(vars: &Vec<(String, ValueType)>, t: &Terminator, at: &str) -> (r: Result<(), Diagnostic>)
    ensures
        reports(r, exprs_error(vars@, terminator_exprs(*t), at@, terminator_exprs(*t).len() as int)),
{
    let es = term_exprs(t);
    let ghost tes = terminator_exprs(*t);
    let mut k: usize = 0;
    while k < es.len()
        invariant
            k <= es@.len(),
            tes == terminator_exprs(*t),
            es@.len() == tes.len(),
            forall|i: int| 0 <= i < es@.len() ==> *es@[i] == tes[i],
            exprs_error(vars@, tes, at@, k as int) is None,
        decreases es@.len() - k,
    {
        match expr_type(es[k], vars, at) {
            Ok(_) => {},
            Err(d) => {
                proof {
                    lemma_exprs_error_stays(vars@, tes, at@, k as int + 1, tes.len() as int);
                }
                return Err(d);
            },
        }
        k = k + 1;
    }
    Ok(())
}

/// The error of a terminator: its rule error, then a wait error, then a
/// branch coverage error, then, in a runtime check, a typing error of an
/// expression it evaluates.
pub open spec fn terminator_error(s: FunctionScope, vars: Seq<(String, ValueType)>, ret: Option<ValueType>, t: Terminator, at: Seq<char>) -> Option<DiagText> {
    or_else(rule_error(s, vars, ret, t, at), or_else(match t {
        Terminator::Await { conditions, .. } => waits_error(s, conditions@, at, conditions@.len() as int),
        _ => None,
    }, or_else(match t {
        Terminator::Interact { choice, branches, .. } => coverage_error(s, choice@, branches@, at),
        _ => None,
    }, if s.runtime {
        exprs_error(vars, terminator_exprs(t), at, terminator_exprs(t).len() as int)
    } else {
        None
    })))
}

fn check_terminator(s: &FunctionScope, vars: &Vec<(String, ValueType)>, ret: Option<ValueType>, t: &Terminator, at: &str) -> (r: Result<(), Diagnostic>)
    ensures
        reports(r, terminator_error(*s, vars@, ret, *t, at@)),
{
    check_rule(s, vars, ret, t, at)?;
    match t {
        Terminator::Await { conditions, .. } => check_waits(s, conditions, at)?,
        _ => {},
    }
    match t {
        Terminator::Interact { choice, branches, .. } => check_coverage(s, choice.as_str(), branches, at)?,
        _ => {},
    }
    if s.runtime {
        check_exprs(vars, t, at)
    } else {
        Ok(())
    }
}

/// The error of block `i` of `f`, reported at `fid/bid` (operation errors at
/// the operation's id): a continuation to a block the function does not
/// have, an operation error (an id in `prior` or in an earlier block counts
/// as used), or a terminator error.
pub open spec fn block_error(s: FunctionScope, vars: Seq<(String, ValueType)>, f: Function, fid: Seq<char>, prior: Set<Seq<char>>, i: int) -> Option<DiagText> {
    let b = f.blocks@[i];
    let at = fid + "/"@ + b.0@;
    or_else(target_error(f.blocks@, b.1.terminator, at), or_else(
        ops_error(vars, b.1.ops@, prior.union(ids_before(f.blocks@, i)), at, b.1.ops@.len() as int),
        terminator_error(s, vars, f.returns, b.1.terminator, at),
    ))
}

/// The first block error among the first `k` blocks.
pub open spec fn blocks_error(s: FunctionScope, vars: Seq<(String, ValueType)>, f: Function, fid: Seq<char>, prior: Set<Seq<char>>, k: int) -> Option<DiagText>
    decreases k,
{
    if k <= 0 {
        None
    } else {
        or_else(blocks_error(s, vars, f, fid, prior, k - 1), block_error(s, vars, f, fid, prior, k - 1))
    }
}

proof fn lemma_blocks_error_stays(s: FunctionScope, vars: Seq<(String, ValueType)>, f: Function, fid: Seq<char>, prior: Set<Seq<char>>, k: int, m: int)
    requires
        0 <= k <= m,
        blocks_error(s, vars, f, fid, prior, k) is Some,
    ensures
        blocks_error(s, vars, f, fid, prior, m) == blocks_error(s, vars, f, fid, prior, k),
    decreases m - k,
{
    if k < m {
        lemma_blocks_error_stays(s, vars, f, fid, prior, k, m - 1);
    }
}

/// The names of a list of typed variables.
pub open spec fn variable_names(vars: Seq<(String, ValueType)>) -> Seq<String> {
    vars.map_values(|v: (String, ValueType)| v.0)
}

/// The first error of function `fid`, when the operation ids in `prior` are
/// already used: a missing entry block or more than 100000 blocks; a
/// parameter or local declared twice or over a program variable; a block
/// error, in block order; or a read of a variable that is not assigned on
/// every walk to it.
pub open spec fn function_error_after(s: FunctionScope, fid: Seq<char>, f: Function, prior: Set<Seq<char>>) -> Option<DiagText> {
    let own = f.params@ + f.locals@;
    if assoc(f.blocks@, f.entry@) is None || f.blocks@.len() > 100000 {
        Some(("E_BLOCK"@, fid, "invalid entry/block limit"@))
    } else {
        or_else(decls_error(s.variables@, own, fid, own.len() as int), or_else(
            blocks_error(s, s.variables@ + own, f, fid, prior, f.blocks@.len() as int),
            match definite_error(f, fid, initial_set(variable_names(s.variables@), f.params@), f.blocks@.len() as int) {
                Some(e) => Some(("E_UNINITIALIZED"@, e.0, e.1)),
                None => None,
            },
        ))
    }
}

/// The first error of function `fid` checked on its own.
pub open spec fn function_error(s: FunctionScope, fid: Seq<char>, f: Function) -> Option<DiagText> {
    function_error_after(s, fid, f, Set::empty())
}

fn check_block(s: &FunctionScope, vars: &Vec<(String, ValueType)>, f: &Function, fid: &str, i: usize, ids: &mut Vec<String>, Ghost(prior): Ghost<Set<Seq<char>>>) -> (r: Result<(), Diagnostic>)
    requires
        i < f.blocks@.len(),
        names_in(old(ids)@) == prior.union(ids_before(f.blocks@, i as int)),
    ensures
        reports(r, block_error(*s, vars@, *f, fid@, prior, i as int)),
        r is Ok ==> names_in(final(ids)@) == prior.union(ids_before(f.blocks@, i + 1)),
{
    let b = &f.blocks[i];
    let at = concat3(fid, "/", b.0.as_str());
    check_targets(&f.blocks, &b.1.terminator, at.as_str())?;
    check_ops(vars, &b.1.ops, ids, at.as_str())?;
    proof {
        assert(prior.union(ids_before(f.blocks@, i as int)).union(op_ids(b.1.ops@)) =~= prior.union(ids_before(f.blocks@, i + 1)));
    }
    check_terminator(s, vars, f.returns, &b.1.terminator, at.as_str())
}

pub(crate) fn copy_vars(v: &Vec<(String, ValueType)>, out: &mut Vec<(String, ValueType)>)
    ensures
        final(out)@ == old(out)@ + v@,
{
    let mut k: usize = 0;
    let ghost start = out@;
    while k < v.len()
        invariant
            k <= v@.len(),
            out@ == start + v@.subrange(0, k as int),
        decreases v@.len() - k,
    {
        out.push((v[k].0.clone(), v[k].1));
        proof {
            assert(start + v@.subrange(0, k + 1) =~= (start + v@.subrange(0, k as int)).push(v@[k as int]));
        }
        k = k + 1;
    }
    proof {
        assert(v@.subrange(0, v@.len() as int) =~= v@);
    }
}

fn check_function(s: &FunctionScope, fid: &str, f: &Function, ids: &mut Vec<String>) -> (r: Result<(), Diagnostic>)
    ensures
        reports(r, function_error_after(*s, fid@, *f, names_in(old(ids)@))),
        r is Ok ==> names_in(final(ids)@) == names_in(old(ids)@).union(ids_before(f.blocks@, f.blocks@.len() as int)),
{
    if position_of(&f.blocks, f.entry.as_str()).is_none() || f.blocks.len() > 100000 {
        return Err(Diagnostic::new("E_BLOCK", fid, "invalid entry/block limit"));
    }
    let ghost prior = names_in(old(ids)@);
    let mut own: Vec<(String, ValueType)> = Vec::new();
    copy_vars(&f.params, &mut own);
    copy_vars(&f.locals, &mut own);
    proof {
        assert(own@ =~= f.params@ + f.locals@);
    }
    let vars = declare_vars(&s.variables, &own, fid)?;
    let mut i: usize = 0;
    proof {
        assert(prior.union(ids_before(f.blocks@, 0)) =~= prior);
    }
    while i < f.blocks.len()
        invariant
            i <= f.blocks@.len(),
            prior == names_in(old(ids)@),
            vars@ == s.variables@ + (f.params@ + f.locals@),
            assoc(f.blocks@, f.entry@) is Some,
            f.blocks@.len() <= 100000,
            decls_error(s.variables@, f.params@ + f.locals@, fid@, (f.params@ + f.locals@).len() as int) is None,
            names_in(ids@) == prior.union(ids_before(f.blocks@, i as int)),
            blocks_error(*s, vars@, *f, fid@, prior, i as int) is None,
        decreases f.blocks@.len() - i,
    {
        match check_block(s, &vars, f, fid, i, ids, Ghost(prior)) {
            Ok(()) => {},
            Err(d) => {
                proof {
                    lemma_blocks_error_stays(*s, vars@, *f, fid@, prior, i as int + 1, f.blocks@.len() as int);
                }
                return Err(d);
            },
        }
        i = i + 1;
    }
    let mut names: Vec<String> = Vec::new();
    let mut g: usize = 0;
    while g < s.variables.len()
        invariant
            g <= s.variables@.len(),
            names@ == variable_names(s.variables@.subrange(0, g as int)),
        decreases s.variables@.len() - g,
    {
        names.push(s.variables[g].0.clone());
        proof {
            assert(variable_names(s.variables@.subrange(0, g + 1)) =~= variable_names(s.variables@.subrange(0, g as int)).push(s.variables@[g as int].0));
        }
        g = g + 1;
    }
    proof {
        assert(s.variables@.subrange(0, s.variables@.len() as int) =~= s.variables@);
    }
    match check_definite(f, fid, &names) {
        Ok(()) => Ok(()),
        Err(d) => Err(d),
    }
}

/// Checks one function of a loaded package against the program it is
/// loaded into: the entry block exists and there are at most 100000 blocks;
/// parameters and locals are new names; in block order, every continuation
/// names a block, operation ids are unique within the function,
/// assignments, random draws and patches are well typed and finite, and
/// each terminator keeps its rule (typing of branches, switches, calls and
/// returns; ownership and presence of cues, tasks and choices; reachable
/// wait milestones; branch coverage of choices); finally every read is of a
/// variable assigned on every walk from the entry. The first failing check
/// is the error.
pub fn validate_runtime_function(s: &FunctionScope, fid: &str, f: &Function) -> (r: Result<(), Diagnostic>)
    ensures
        reports(r, function_error(*s, fid@, *f)),
{
    let mut ids: Vec<String> = Vec::new();
    proof {
        assert(names_in(ids@) =~= Set::<Seq<char>>::empty());
    }
    check_function(s, fid, f, &mut ids)
}

/// The operation ids of the first `k` functions.
pub open spec fn function_ids_before(fns: Seq<(String, Function)>, k: int) -> Set<Seq<char>>
    decreases k,
{
    if k <= 0 {
        Set::empty()
    } else {
        function_ids_before(fns, k - 1).union(ids_before(fns[k - 1].1.blocks@, fns[k - 1].1.blocks@.len() as int))
    }
}

/// The first function error among the first `k` functions, operation ids
/// being unique across all of them.
pub open spec fn functions_error(s: FunctionScope, fns: Seq<(String, Function)>, k: int) -> Option<DiagText>
    decreases k,
{
    if k <= 0 {
        None
    } else {
        or_else(functions_error(s, fns, k - 1), function_error_after(s, fns[k - 1].0@, fns[k - 1].1, function_ids_before(fns, k - 1)))
    }
}

proof fn lemma_functions_error_stays(s: FunctionScope, fns: Seq<(String, Function)>, k: int, m: int)
    requires
        0 <= k <= m,
        functions_error(s, fns, k) is Some,
    ensures
        functions_error(s, fns, m) == functions_error(s, fns, k),
    decreases m - k,
{
    if k < m {
        lemma_functions_error_stays(s, fns, k, m - 1);
    }
}

/// Checks every function of a source program in table order, as
/// `validate_runtime_function` checks one, with operation ids unique across
/// the whole program. The first failing check is the error.
pub fn validate_functions(s: &FunctionScope, fns: &Vec<(String, Function)>) -> (r: Result<(), Diagnostic>)
    ensures
        reports(r, functions_error(*s, fns@, fns@.len() as int)),
{
    let mut ids: Vec<String> = Vec::new();
    let mut k: usize = 0;
    proof {
        assert(names_in(ids@) =~= Set::<Seq<char>>::empty());
    }
    while k < fns.len()
        invariant
            k <= fns@.len(),
            names_in(ids@) == function_ids_before(fns@, k as int),
            functions_error(*s, fns@, k as int) is None,
        decreases fns@.len() - k,
    {
        match check_function(s, fns[k].0.as_str(), &fns[k].1, &mut ids) {
            Ok(()) => {},
            Err(d) => {
                proof {
                    lemma_functions_error_stays(*s, fns@, k as int + 1, fns@.len() as int);
                }
                return Err(d);
            },
        }
        k = k + 1;
    }
    Ok(())
}

/// An assignment's value types, as the type its target is declared with.
pub open spec fn assignment_typed(vars: Seq<(String, ValueType)>, op: Op) -> bool {
    match op.operation {
        Operation::Assign { target, value } => match typing(value, vars, op.id@) {
            Ok(t) => var_type(vars, target@) == Some(t),
            Err(_) => false,
        },
        _ => true,
    }
}

proof fn lemma_blocks_clean(s: FunctionScope, vars: Seq<(String, ValueType)>, f: Function, fid: Seq<char>, prior: Set<Seq<char>>, k: int, i: int)
    requires
        0 <= i < k,
        blocks_error(s, vars, f, fid, prior, k) is None,
    ensures
        block_error(s, vars, f, fid, prior, i) is None,
    decreases k,
{
    if i < k - 1 {
        lemma_blocks_clean(s, vars, f, fid, prior, k - 1, i);
    }
}

proof fn lemma_targets_present(blocks: Seq<(String, Block)>, ts: Seq<Seq<char>>, n: int, k: int)
    requires
        0 <= k < n,
        missing_target(blocks, ts, n) is None,
    ensures
        assoc_keys(blocks).contains(ts[k]),
    decreases n,
{
    if k < n - 1 {
        lemma_targets_present(blocks, ts, n - 1, k);
    }
}

proof fn lemma_ops_clean(vars: Seq<(String, ValueType)>, ops: Seq<Op>, prior: Set<Seq<char>>, at: Seq<char>, n: int, j: int)
    requires
        0 <= j < n,
        ops_error(vars, ops, prior, at, n) is None,
    ensures
        op_error(vars, ops[j]) is None,
        !prior.contains(ops[j].id@),
        forall|j2: int| 0 <= j2 < j ==> (#[trigger] ops[j2]).id@ != ops[j].id@,
    decreases n,
{
    if j < n - 1 {
        lemma_ops_clean(vars, ops, prior, at, n - 1, j);
    }
}

/// What a function that passes its check keeps, whatever operation ids were
/// used before it.
pub open spec fn closed_and_typed(s: FunctionScope, f: Function, i: int) -> bool {
    &&& forall|k: int| 0 <= k < successors(f.blocks@[i].1.terminator).len()
        ==> assoc_keys(f.blocks@).contains(#[trigger] successors(f.blocks@[i].1.terminator)[k])
    &&& forall|j: int| 0 <= j < f.blocks@[i].1.ops@.len()
        ==> assignment_typed(s.variables@ + (f.params@ + f.locals@), #[trigger] f.blocks@[i].1.ops@[j])
}

pub(crate) proof fn lemma_function_closed(s: FunctionScope, fid: Seq<char>, f: Function, prior: Set<Seq<char>>, i: int)
    requires
        function_error_after(s, fid, f, prior) is None,
        0 <= i < f.blocks@.len(),
    ensures
        closed_and_typed(s, f, i),
{
    let vars = s.variables@ + (f.params@ + f.locals@);
    let b = f.blocks@[i];
    let at = fid + "/"@ + b.0@;
    lemma_blocks_clean(s, vars, f, fid, prior, f.blocks@.len() as int, i);
    let ts = successors(b.1.terminator);
    assert forall|k: int| 0 <= k < ts.len() implies assoc_keys(f.blocks@).contains(#[trigger] ts[k]) by {
        lemma_targets_present(f.blocks@, ts, ts.len() as int, k);
    }
    assert forall|j: int| 0 <= j < b.1.ops@.len() implies assignment_typed(vars, #[trigger] b.1.ops@[j]) by {
        lemma_ops_clean(vars, b.1.ops@, prior.union(ids_before(f.blocks@, i)), at, b.1.ops@.len() as int, j);
    }
}

/// A function that `validate_runtime_function` accepts stays within its own
/// blocks and assigns well-typed values: every continuation of every block
/// names one of its blocks, and the value of every assignment types as the
/// declared type of its target, under the program's variables, the
/// parameters and the locals.
pub proof fn accepted_function_is_closed_and_typed(s: FunctionScope, fid: Seq<char>, f: Function, i: int)
    requires
        function_error(s, fid, f) is None,
        0 <= i < f.blocks@.len(),
    ensures
        closed_and_typed(s, f, i),
{
    lemma_function_closed(s, fid, f, Set::empty(), i);
}

/// Every return of a function that `validate_runtime_function` accepts
/// matches the function's declared result: a bare return stands only in a
/// function that declares none, and a returned expression has, under the
/// program's variables, the parameters and the locals, exactly the declared
/// result type.
pub proof fn accepted_returns_match_declared_type(s: FunctionScope, fid: Seq<char>, f: Function, i: int)
    requires
        function_error(s, fid, f) is None,
        0 <= i < f.blocks@.len(),
    ensures
        match f.blocks@[i].1.terminator {
            Terminator::Return { value: None } => f.returns is None,
            Terminator::Return { value: Some(e) } => f.returns matches Some(t)
                && typing(e, s.variables@ + (f.params@ + f.locals@), fid + "/"@ + f.blocks@[i].0@) == Ok::<ValueType, DiagText>(t),
            _ => true,
        },
{
    let vars = s.variables@ + (f.params@ + f.locals@);
    lemma_blocks_clean(s, vars, f, fid, Set::empty(), f.blocks@.len() as int, i);
}

/// Every block of a function that `validate_runtime_function` accepts ends
/// in a terminator that keeps its rule, read under the program's variables,
/// the parameters and the locals: a branch condition types as a flag; a
/// switch value types as an integer or a string, and an integer switch has
/// only integer keys; a call names a known function, passes as many
/// arguments as it has parameters and binds each parameter to an argument
/// of its type, and stores its result only into a variable of the callee's
/// result type; an
/// activation names a known cue and an interaction
/// a known choice; and a wait waits on at least one task.
pub proof fn accepted_terminators_keep_their_rules(s: FunctionScope, fid: Seq<char>, f: Function, i: int)
    requires
        function_error(s, fid, f) is None,
        0 <= i < f.blocks@.len(),
    ensures
        ({
            let vars = s.variables@ + (f.params@ + f.locals@);
            let at = fid + "/"@ + f.blocks@[i].0@;
            match f.blocks@[i].1.terminator {
                Terminator::Branch { condition, .. } => typing(condition, vars, at) == Ok::<ValueType, DiagText>(ValueType::Bool),
                Terminator::Switch { value, cases, .. } => typing(value, vars, at) matches Ok(t) && t != ValueType::Bool
                    && (t == ValueType::I32 ==> forall|k: int| 0 <= k < cases@.len() ==> parses_as_i32((#[trigger] cases@[k]).0@)),
                Terminator::Call { function, args, result, .. } => assoc(s.signatures@, function@) matches Some(sig)
                    && args@.len() == sig.params@.len()
                    && (forall|m: int| 0 <= m < sig.params@.len() ==> (assoc(args@, (#[trigger] sig.params@[m]).0@) matches Some(e)
                        && typing(e, vars, at) == Ok::<ValueType, DiagText>(sig.params@[m].1)))
                    && (result matches Some(t) ==> var_type(vars, t@) == sig.returns),
                Terminator::Activate { cue, .. } => assoc(s.cues@, cue@) is Some,
                Terminator::Interact { choice, .. } => assoc(s.choices@, choice@) is Some,
                Terminator::Await { conditions, .. } => conditions@.len() > 0,
                _ => true,
            }
        }),
{
    let vars = s.variables@ + (f.params@ + f.locals@);
    let at = fid + "/"@ + f.blocks@[i].0@;
    lemma_blocks_clean(s, vars, f, fid, Set::empty(), f.blocks@.len() as int, i);
    match f.blocks@[i].1.terminator {
        Terminator::Call { function, args, result, .. } => {
            let sig = assoc(s.signatures@, function@)->0;
            assert forall|m: int| 0 <= m < sig.params@.len() implies (assoc(args@, (#[trigger] sig.params@[m]).0@) matches Some(e)
                && typing(e, vars, at) == Ok::<ValueType, DiagText>(sig.params@[m].1)) by {
                lemma_args_clean(vars, args@, sig.params@, at, sig.params@.len() as int, m);
            }
        },
        _ => {},
    }
}

proof fn lemma_args_clean(vars: Seq<(String, ValueType)>, args: Seq<(String, Expr)>, params: Seq<(String, ValueType)>, at: Seq<char>, n: int, m: int)
    requires
        0 <= m < n,
        args_error(vars, args, params, at, n) is None,
    ensures
        assoc(args, params[m].0@) matches Some(e) && typing(e, vars, at) == Ok::<ValueType, DiagText>(params[m].1),
    decreases n,
{
    if m < n - 1 {
        lemma_args_clean(vars, args, params, at, n - 1, m);
    }
}

proof fn lemma_ids_before_grow(blocks: Seq<(String, Block)>, i: int, n: int, j: int)
    requires
        0 <= i < n,
        0 <= j < blocks[i].1.ops@.len(),
    ensures
        ids_before(blocks, n).contains(blocks[i].1.ops@[j].id@),
    decreases n,
{
    if i < n - 1 {
        lemma_ids_before_grow(blocks, i, n - 1, j);
    } else {
        assert(op_ids(blocks[i].1.ops@).contains(blocks[i].1.ops@[j].id@));
    }
}

/// The operations of a function that `validate_runtime_function` accepts
/// have distinct identities: no two of its operations share an id, within a
/// block or across blocks.
pub proof fn accepted_operation_ids_are_distinct(s: FunctionScope, fid: Seq<char>, f: Function, i: int, j: int, i2: int, j2: int)
    requires
        function_error(s, fid, f) is None,
        0 <= i < f.blocks@.len(),
        0 <= i2 < f.blocks@.len(),
        0 <= j < f.blocks@[i].1.ops@.len(),
        0 <= j2 < f.blocks@[i2].1.ops@.len(),
        i != i2 || j != j2,
    ensures
        f.blocks@[i].1.ops@[j].id@ != f.blocks@[i2].1.ops@[j2].id@,
{
    let vars = s.variables@ + (f.params@ + f.locals@);
    let bs = f.blocks@;
    lemma_blocks_clean(s, vars, f, fid, Set::empty(), bs.len() as int, i);
    lemma_blocks_clean(s, vars, f, fid, Set::empty(), bs.len() as int, i2);
    let at1 = fid + "/"@ + bs[i].0@;
    let at2 = fid + "/"@ + bs[i2].0@;
    let p1 = Set::<Seq<char>>::empty().union(ids_before(bs, i));
    let p2 = Set::<Seq<char>>::empty().union(ids_before(bs, i2));
    assert(ops_error(vars, bs[i].1.ops@, p1, at1, bs[i].1.ops@.len() as int) is None);
    assert(ops_error(vars, bs[i2].1.ops@, p2, at2, bs[i2].1.ops@.len() as int) is None);
    lemma_ops_clean(vars, bs[i].1.ops@, p1, at1, bs[i].1.ops@.len() as int, j);
    lemma_ops_clean(vars, bs[i2].1.ops@, p2, at2, bs[i2].1.ops@.len() as int, j2);
    if i < i2 {
        lemma_ids_before_grow(bs, i, i2, j);
    } else if i2 < i {
        lemma_ids_before_grow(bs, i2, i, j2);
    }
}

proof fn lemma_functions_clean(s: FunctionScope, fns: Seq<(String, Function)>, n: int, k: int)
    requires
        0 <= k < n,
        functions_error(s, fns, n) is None,
    ensures
        function_error_after(s, fns[k].0@, fns[k].1, function_ids_before(fns, k)) is None,
    decreases n,
{
    if k < n - 1 {
        lemma_functions_clean(s, fns, n - 1, k);
    }
}

/// Every function of a list that `validate_functions` accepts stays within
/// its own blocks and assigns well-typed values (see
/// `accepted_function_is_closed_and_typed`).
pub proof fn accepted_functions_are_closed_and_typed(s: FunctionScope, fns: Seq<(String, Function)>, k: int, i: int)
    requires
        functions_error(s, fns, fns.len() as int) is None,
        0 <= k < fns.len(),
        0 <= i < fns[k].1.blocks@.len(),
    ensures
        closed_and_typed(s, fns[k].1, i),
{
    lemma_functions_clean(s, fns, fns.len() as int, k);
    lemma_function_closed(s, fns[k].0@, fns[k].1, function_ids_before(fns, k), i);
}

/// The effects defined under `id` among a cue's definitions, in order.
pub open spec fn defs_effects(defs: Seq<EffectDef>, id: Seq<char>) -> Seq<Effect>
    decreases defs.len(),
{
    if defs.len() == 0 {
        Seq::empty()
    } else {
        let r = defs_effects(defs.drop_last(), id);
        if defs.last().id@ == id {
            r.push(defs.last().effect)
        } else {
            r
        }
    }
}

/// The effects of task `id` across the cues, cue by cue in table order.
pub open spec fn task_effects(cues: Seq<(String, Cue)>, id: Seq<char>) -> Seq<Effect>
    decreases cues.len(),
{
    if cues.len() == 0 {
        Seq::empty()
    } else {
        task_effects(cues.drop_last(), id) + defs_effects(cues.last().1.effects@, id)
    }
}

/// `tasks` holds exactly the effects `effs` for task `id`: an entry with
/// them when there are some, no entry otherwise.
pub open spec fn holds_task(tasks: Seq<(String, Vec<Effect>)>, id: Seq<char>, effs: Seq<Effect>) -> bool {
    match assoc(tasks, id) {
        Some(v) => v@ == effs && effs.len() > 0,
        None => effs.len() == 0,
    }
}

fn clone_effects(v: &Vec<Effect>) -> (r: Vec<Effect>)
    ensures
        r@ == v@,
{
    let mut r: Vec<Effect> = Vec::new();
    let mut k: usize = 0;
    while k < v.len()
        invariant
            k <= v@.len(),
            r@ == v@.subrange(0, k as int),
        decreases v@.len() - k,
    {
        r.push(v[k].clone());
        proof {
            assert(v@.subrange(0, k + 1) =~= v@.subrange(0, k as int).push(v@[k as int]));
        }
        k = k + 1;
    }
    proof {
        assert(v@.subrange(0, v@.len() as int) =~= v@);
    }
    r
}

/// The task table of a program: for each effect id used in its cues, the
/// effects defined under it, cue by cue in table order.
pub fn task_definitions(cues: &Vec<(String, Cue)>) -> (r: Vec<(String, Vec<Effect>)>)
    ensures
        forall|id: Seq<char>| #[trigger] holds_task(r@, id, task_effects(cues@, id)),
{
    let mut r: Vec<(String, Vec<Effect>)> = Vec::new();
    let mut i: usize = 0;
    proof {
        assert forall|id: Seq<char>| #[trigger] holds_task(r@, id, task_effects(cues@.subrange(0, 0), id)) by {
            assert(cues@.subrange(0, 0).len() == 0);
        }
    }
    while i < cues.len()
        invariant
            i <= cues@.len(),
            forall|id: Seq<char>| #[trigger] holds_task(r@, id, task_effects(cues@.subrange(0, i as int), id)),
        decreases cues@.len() - i,
    {
        let defs = &cues[i].1.effects;
        let ghost done = cues@.subrange(0, i as int);
        let mut j: usize = 0;
        proof {
            assert forall|id: Seq<char>| #[trigger] holds_task(r@, id, task_effects(done, id) + defs_effects(defs@.subrange(0, 0), id)) by {
                assert(task_effects(done, id) + defs_effects(defs@.subrange(0, 0), id) =~= task_effects(done, id));
            }
        }
        while j < defs.len()
            invariant
                j <= defs@.len(),
                forall|id: Seq<char>| #[trigger] holds_task(r@, id, task_effects(done, id) + defs_effects(defs@.subrange(0, j as int), id)),
            decreases defs@.len() - j,
        {
            let d = &defs[j];
            let ghost before = r@;
            let mut v: Vec<Effect> = match get_entry(&r, d.id.as_str()) {
                Some(v) => clone_effects(v),
                None => Vec::new(),
            };
            v.push(d.effect.clone());
            let ghost old_effs: Seq<Effect> = match assoc(before, d.id@) {
                Some(ov) => ov@,
                None => Seq::empty(),
            };
            assert(v@ == old_effs.push(d.effect));
            let ghost vv = v@;
            put_entry(&mut r, d.id.clone(), v);
            proof {
                assert(assoc(r@, d.id@) matches Some(x) && x@ == vv);
                let pre = defs@.subrange(0, j as int);
                let post = defs@.subrange(0, j + 1);
                assert(post.drop_last() =~= pre);
                assert(post.last() == *d);
                assert forall|id: Seq<char>| #[trigger] holds_task(r@, id, task_effects(done, id) + defs_effects(post, id)) by {
                    assert(holds_task(before, id, task_effects(done, id) + defs_effects(pre, id)));
                    if id == d.id@ {
                        let prev = task_effects(done, id) + defs_effects(pre, id);
                        assert(task_effects(done, id) + defs_effects(post, id) =~= prev.push(d.effect));
                        if assoc(before, id) is None {
                            assert(prev =~= Seq::<Effect>::empty());
                        }
                        assert(old_effs == prev);
                    } else {
                        assert(defs_effects(post, id) == defs_effects(pre, id));
                    }
                }
            }
            j = j + 1;
        }
        proof {
            assert(defs@.subrange(0, defs@.len() as int) =~= defs@);
            let next = cues@.subrange(0, i + 1);
            assert(next.drop_last() =~= done);
            assert(next.last() == cues@[i as int]);
            assert forall|id: Seq<char>| #[trigger] holds_task(r@, id, task_effects(next, id)) by {
                assert(holds_task(r@, id, task_effects(done, id) + defs_effects(defs@.subrange(0, defs@.len() as int), id)));
            }
        }
        i = i + 1;
    }
    proof {
        assert(cues@.subrange(0, cues@.len() as int) =~= cues@);
    }
    r
}

} // verus!
