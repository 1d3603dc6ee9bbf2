//! Definite assignment in a function: the variables that are assigned on
//! every path from the entry to each block, found as the fixed point of a
//! forward analysis, and the check that no operation or terminator reads a
//! variable before it is assigned.
use crate::assoc::{assoc, assoc_keys, contains_name, get_entry, put_entry};
use crate::expr::{check_reads, expr_reads, name_set, outgoing, successors, term_exprs, terminator_exprs, uninitialized_read};
use crate::format::{diag_is, Diagnostic, Expr};
use crate::strings::concat3;
use crate::format::{Block, Function, Op, Operation, Terminator, ValueType};
use crate::table::names_in;
use vstd::prelude::*;

verus! {

/// The variable an operation assigns, if any.
pub open spec fn op_target(op: Op) -> Option<Seq<char>> {
    match op.operation {
        Operation::Assign { target, .. } => Some(target@),
        Operation::Random { target, .. } => Some(target@),
        _ => None,
    }
}

/// The variables that operations assign, in order.
pub open spec fn ops_gen(ops: Seq<Op>) -> Seq<Seq<char>>
    decreases ops.len(),
{
    if ops.len() == 0 {
        Seq::empty()
    } else {
        let rest = ops_gen(ops.drop_last());
        match op_target(ops.last()) {
            Some(t) => rest.push(t),
            None => rest,
        }
    }
}

/// The variable a call terminator stores its result in.
pub open spec fn call_result(t: Terminator) -> Seq<Seq<char>> {
    match t {
        Terminator::Call { result, .. } => match result {
            Some(r) => seq![r@],
            None => Seq::empty(),
        },
        _ => Seq::empty(),
    }
}

/// The variables a block assigns.
pub open spec fn block_gen(b: Block) -> Set<Seq<char>> {
    (ops_gen(b.ops@) + call_result(b.terminator)).to_set()
}

/// The variables assigned before a function starts: the program's
/// variables and the function's parameters.
pub open spec fn initial_set(globals: Seq<String>, params: Seq<(String, ValueType)>) -> Set<Seq<char>> {
    names_in(globals).union(params.map_values(|p: (String, ValueType)| p.0@).to_set())
}

/// The recorded set of block `x`.
pub open spec fn set_of(incoming: Seq<(String, Vec<String>)>, x: Seq<char>) -> Option<Set<Seq<char>>> {
    match assoc(incoming, x) {
        Some(v) => Some(names_in(v@)),
        None => None,
    }
}

/// Every successor of block `b` has a recorded set, and it holds no variable
/// that `b` does not have assigned when it ends.
pub open spec fn block_closed(incoming: Seq<(String, Vec<String>)>, b: (String, Block)) -> bool {
    match set_of(incoming, b.0@) {
        None => true,
        Some(s) => forall|k: int| 0 <= k < successors(b.1.terminator).len() ==> match set_of(incoming, #[trigger] successors(b.1.terminator)[k]) {
            Some(t) => t.subset_of(s.union(block_gen(b.1))),
            None => false,
        },
    }
}

/// The recorded sets are a fixed point of the analysis on `blocks`.
pub open spec fn closed(incoming: Seq<(String, Vec<String>)>, blocks: Seq<(String, Block)>) -> bool {
    forall|i: int| 0 <= i < blocks.len() ==> block_closed(incoming, #[trigger] blocks[i])
}

/// Every successor of every block, in order.
pub open spec fn all_successors(blocks: Seq<(String, Block)>) -> Seq<Seq<char>>
    decreases blocks.len(),
{
    if blocks.len() == 0 {
        Seq::empty()
    } else {
        all_successors(blocks.drop_last()) + successors(blocks.last().1.terminator)
    }
}

/// Every variable that some block assigns, in order.
pub open spec fn all_gen(blocks: Seq<(String, Block)>) -> Seq<Seq<char>>
    decreases blocks.len(),
{
    if blocks.len() == 0 {
        Seq::empty()
    } else {
        all_gen(blocks.drop_last()) + ops_gen(blocks.last().1.ops@) + call_result(blocks.last().1.terminator)
    }
}

/// What a recorded set costs in the termination measure: its size, or one
/// more than the largest size when it is absent.
pub open spec fn cost(incoming: Seq<(String, Vec<String>)>, x: Seq<char>, u: nat) -> nat {
    match assoc(incoming, x) {
        Some(v) => names_in(v@).len(),
        None => u + 1,
    }
}

/// The termination measure over the names `ks`.
pub open spec fn measure(incoming: Seq<(String, Vec<String>)>, ks: Seq<Seq<char>>, u: nat) -> nat
    decreases ks.len(),
{
    if ks.len() == 0 {
        0
    } else {
        measure(incoming, ks.drop_last(), u) + cost(incoming, ks.last(), u)
    }
}

proof fn lemma_names_finite(v: Seq<String>)
    ensures
        names_in(v) == v.map_values(|s: String| s@).to_set(),
        names_in(v).finite(),
{
    broadcast use vstd::seq_lib::seq_to_set_is_finite;
    let m = v.map_values(|s: String| s@);
    assert forall|x: Seq<char>| names_in(v).contains(x) <==> m.to_set().contains(x) by {
        if names_in(v).contains(x) {
            let i = choose|i: int| 0 <= i < v.len() && (#[trigger] v[i])@ == x;
            assert(m[i] == x);
        }
        if m.to_set().contains(x) {
            let i = choose|i: int| 0 <= i < m.len() && m[i] == x;
            assert(v[i]@ == x);
        }
    }
    assert(names_in(v) =~= m.to_set());
}

proof fn lemma_measure_update(a: Seq<(String, Vec<String>)>, b: Seq<(String, Vec<String>)>, x: Seq<char>, ks: Seq<Seq<char>>, u: nat)
    requires
        forall|y: Seq<char>| y != x ==> #[trigger] assoc(b, y) == assoc(a, y),
        cost(b, x, u) < cost(a, x, u),
    ensures
        measure(b, ks, u) <= measure(a, ks, u),
        ks.contains(x) ==> measure(b, ks, u) < measure(a, ks, u),
    decreases ks.len(),
{
    if ks.len() > 0 {
        lemma_measure_update(a, b, x, ks.drop_last(), u);
        if ks.contains(x) && !ks.drop_last().contains(x) {
            let i = choose|i: int| 0 <= i < ks.len() && ks[i] == x;
            if i < ks.len() - 1 {
                assert(ks.drop_last()[i] == x);
            }
        }
        if ks.last() != x {
            assert(assoc(b, ks.last()) == assoc(a, ks.last()));
        }
    }
}

proof fn lemma_measure_same(a: Seq<(String, Vec<String>)>, b: Seq<(String, Vec<String>)>, ks: Seq<Seq<char>>, u: nat)
    requires
        forall|y: Seq<char>| #[trigger] assoc(b, y) == assoc(a, y),
    ensures
        measure(b, ks, u) == measure(a, ks, u),
    decreases ks.len(),
{
    if ks.len() > 0 {
        lemma_measure_same(a, b, ks.drop_last(), u);
        assert(assoc(b, ks.last()) == assoc(a, ks.last()));
    }
}

fn copy_names(v: &Vec<String>) -> (r: Vec<String>)
    ensures
        r@ == v@,
{
    let mut r: Vec<String> = Vec::new();
    let mut i: usize = 0;
    while i < v.len()
        invariant
            i <= v@.len(),
            r@ == v@.subrange(0, i as int),
        decreases v@.len() - i,
    {
        r.push(v[i].clone());
        proof {
            assert(r@ =~= v@.subrange(0, i + 1));
        }
        i = i + 1;
    }
    proof {
        assert(v@.subrange(0, v@.len() as int) =~= v@);
    }
    r
}

fn intersect(a: &Vec<String>, b: &Vec<String>) -> (r: Vec<String>)
    ensures
        names_in(r@) == names_in(a@).intersect(names_in(b@)),
{
    let mut r: Vec<String> = Vec::new();
    let mut i: usize = 0;
    while i < a.len()
        invariant
            i <= a@.len(),
            names_in(r@) == names_in(a@.subrange(0, i as int)).intersect(names_in(b@)),
        decreases a@.len() - i,
    {
        let ghost before = r@;
        let ghost pre = a@.subrange(0, i as int);
        let ghost next = a@.subrange(0, i + 1);
        proof {
            assert(next =~= pre.push(a@[i as int]));
            assert(names_in(next) =~= names_in(pre).insert(a@[i as int]@)) by {
                assert forall|x: Seq<char>| names_in(next).contains(x) <==> names_in(pre).insert(a@[i as int]@).contains(x) by {
                    if names_in(next).contains(x) {
                        let j = choose|j: int| 0 <= j < next.len() && (#[trigger] next[j])@ == x;
                        if j < pre.len() {
                            assert(pre[j] == next[j]);
                        }
                    }
                    if names_in(pre).contains(x) {
                        let j = choose|j: int| 0 <= j < pre.len() && (#[trigger] pre[j])@ == x;
                        assert(next[j] == pre[j]);
                    }
                    if x == a@[i as int]@ {
                        assert(next[i as int]@ == x);
                    }
                }
            }
        }
        if contains_name(b, a[i].as_str()) {
            crate::assoc::add_name(&mut r, a[i].clone());
            proof {
                assert(names_in(r@) =~= names_in(next).intersect(names_in(b@)));
            }
        } else {
            proof {
                assert(names_in(r@) =~= names_in(next).intersect(names_in(b@)));
            }
        }
        i = i + 1;
    }
    proof {
        assert(a@.subrange(0, a@.len() as int) =~= a@);
    }
    r
}

/// The variables assigned at the end of block `b` when `start` are
/// assigned at its start.
fn block_out(start: &Vec<String>, b: &Block) -> (r: Vec<String>)
    ensures
        names_in(r@) == names_in(start@).union(block_gen(*b)),
{
    let mut r = copy_names(start);
    let ghost base = names_in(start@);
    let mut i: usize = 0;
    proof {
        assert(b.ops@.subrange(0, 0) =~= Seq::<Op>::empty());
        assert(base.union(ops_gen(Seq::<Op>::empty()).to_set()) =~= base);
    }
    while i < b.ops.len()
        invariant
            i <= b.ops@.len(),
            names_in(r@) == base.union(ops_gen(b.ops@.subrange(0, i as int)).to_set()),
        decreases b.ops@.len() - i,
    {
        let ghost pre = b.ops@.subrange(0, i as int);
        let ghost next = b.ops@.subrange(0, i + 1);
        proof {
            assert(next.drop_last() =~= pre);
            assert(next.last() == b.ops@[i as int]);
        }
        match &b.ops[i].operation {
            Operation::Assign { target, .. } => {
                crate::assoc::add_name(&mut r, target.clone());
                proof {
                    assert(ops_gen(next) == ops_gen(pre).push(target@));
                    ops_gen(pre).lemma_push_to_set_commute(target@);
                    assert(names_in(r@) =~= base.union(ops_gen(next).to_set()));
                }
            },
            Operation::Random { target, .. } => {
                crate::assoc::add_name(&mut r, target.clone());
                proof {
                    assert(ops_gen(next) == ops_gen(pre).push(target@));
                    ops_gen(pre).lemma_push_to_set_commute(target@);
                    assert(names_in(r@) =~= base.union(ops_gen(next).to_set()));
                }
            },
            _ => {
                proof {
                    assert(ops_gen(next) == ops_gen(pre));
                }
            },
        }
        i = i + 1;
    }
    proof {
        assert(b.ops@.subrange(0, b.ops@.len() as int) =~= b.ops@);
    }
    let ghost mid = names_in(r@);
    match &b.terminator {
        Terminator::Call { result: Some(x), .. } => {
            crate::assoc::add_name(&mut r, x.clone());
            proof {
                assert((ops_gen(b.ops@) + call_result(b.terminator)).to_set() =~= ops_gen(b.ops@).to_set().insert(x@)) by {
                    let g = ops_gen(b.ops@);
                    let h = g + seq![x@];
                    assert(call_result(b.terminator) == seq![x@]);
                    assert forall|y: Seq<char>| h.to_set().contains(y) <==> g.to_set().insert(x@).contains(y) by {
                        if h.to_set().contains(y) {
                            let j = choose|j: int| 0 <= j < h.len() && h[j] == y;
                            if j < g.len() {
                                assert(g[j] == y);
                            }
                        }
                        if g.to_set().contains(y) {
                            let j = choose|j: int| 0 <= j < g.len() && g[j] == y;
                            assert(h[j] == y);
                        }
                        if y == x@ {
                            assert(h[g.len() as int] == y);
                        }
                    }
                }
                assert(names_in(r@) =~= base.union(block_gen(*b)));
            }
        },
        _ => {
            proof {
                assert(call_result(b.terminator) == Seq::<Seq<char>>::empty());
                assert(ops_gen(b.ops@) + call_result(b.terminator) =~= ops_gen(b.ops@));
            }
        },
    }
    r
}


/// Step `k` of block walk `p` follows an edge: the next block is named by a
/// successor of block `p[k]`.
pub open spec fn linked(blocks: Seq<(String, Block)>, p: Seq<int>, k: int) -> bool {
    successors(blocks[p[k]].1.terminator).contains(blocks[p[k + 1]].0@)
}

/// `p` lists the blocks passed from the function's entry to name `x`: no
/// block when `x` is the entry, else a block named `entry` first, each next
/// block named by a successor of the one before, and `x` a successor of the
/// last.
pub open spec fn walk_to(blocks: Seq<(String, Block)>, entry: Seq<char>, p: Seq<int>, x: Seq<char>) -> bool {
    &&& forall|k: int| 0 <= k < p.len() ==> 0 <= #[trigger] p[k] < blocks.len()
    &&& p.len() == 0 ==> x == entry
    &&& p.len() > 0 ==> blocks[p[0]].0@ == entry && successors(blocks[p.last()].1.terminator).contains(x)
    &&& forall|k: int| 0 <= k < p.len() - 1 ==> #[trigger] linked(blocks, p, k)
}

/// What is assigned after passing the blocks of `p`, starting from `init`.
pub open spec fn walk_gen(blocks: Seq<(String, Block)>, init: Set<Seq<char>>, p: Seq<int>) -> Set<Seq<char>>
    decreases p.len(),
{
    if p.len() == 0 {
        init
    } else {
        walk_gen(blocks, init, p.drop_last()).union(block_gen(blocks[p.last()].1))
    }
}

/// Some walk from the entry reaches name `x`.
pub open spec fn reaches(blocks: Seq<(String, Block)>, entry: Seq<char>, x: Seq<char>) -> bool {
    exists|p: Seq<int>| #[trigger] walk_to(blocks, entry, p, x)
}

/// The variables assigned on every walk from the entry to name `x`.
pub open spec fn must_assigned(blocks: Seq<(String, Block)>, entry: Seq<char>, init: Set<Seq<char>>, x: Seq<char>) -> Set<Seq<char>> {
    Set::new(|v: Seq<char>| forall|p: Seq<int>| #[trigger] walk_to(blocks, entry, p, x) ==> walk_gen(blocks, init, p).contains(v))
}

proof fn lemma_walk_extend(blocks: Seq<(String, Block)>, entry: Seq<char>, init: Set<Seq<char>>, p: Seq<int>, i: int, next: Seq<char>)
    requires
        walk_to(blocks, entry, p, blocks[i].0@),
        0 <= i < blocks.len(),
        successors(blocks[i].1.terminator).contains(next),
    ensures
        walk_to(blocks, entry, p.push(i), next),
        walk_gen(blocks, init, p.push(i)) == walk_gen(blocks, init, p).union(block_gen(blocks[i].1)),
{
    let q = p.push(i);
    assert(q.drop_last() =~= p);
    assert forall|k: int| 0 <= k < q.len() implies 0 <= #[trigger] q[k] < blocks.len() by {
        if k < p.len() {
            assert(q[k] == p[k]);
        }
    }
    assert forall|k: int| 0 <= k < q.len() - 1 implies #[trigger] linked(blocks, q, k) by {
        if k < p.len() - 1 {
            assert(linked(blocks, p, k));
            assert(q[k] == p[k] && q[k + 1] == p[k + 1]);
        } else {
            assert(q[k] == p.last() && q[k + 1] == i);
        }
    }
    if p.len() > 0 {
        assert(q[0] == p[0]);
    }
}

/// A walk to `x` through fixed-point sets: the set recorded for `x` holds
/// only what is assigned along the walk.
proof fn lemma_closed_sound(r: Seq<(String, Vec<String>)>, blocks: Seq<(String, Block)>, entry: Seq<char>, init: Set<Seq<char>>, p: Seq<int>, x: Seq<char>)
    requires
        set_of(r, entry) is Some,
        set_of(r, entry).unwrap().subset_of(init),
        closed(r, blocks),
        walk_to(blocks, entry, p, x),
    ensures
        set_of(r, x) is Some,
        set_of(r, x).unwrap().subset_of(walk_gen(blocks, init, p)),
    decreases p.len(),
{
    if p.len() > 0 {
        let q = p.drop_last();
        let t = p.last();
        let y = blocks[t].0@;
        assert(0 <= p[p.len() - 1] < blocks.len());
        assert forall|k: int| 0 <= k < q.len() implies 0 <= #[trigger] q[k] < blocks.len() by {
            assert(q[k] == p[k]);
        }
        assert forall|k: int| 0 <= k < q.len() - 1 implies #[trigger] linked(blocks, q, k) by {
            assert(linked(blocks, p, k));
            assert(q[k] == p[k] && q[k + 1] == p[k + 1]);
        }
        if q.len() > 0 {
            assert(linked(blocks, p, q.len() - 1));
            assert(p[q.len() - 1] == q.last());
            assert(q[0] == p[0]);
        }
        assert(walk_to(blocks, entry, q, y));
        lemma_closed_sound(r, blocks, entry, init, q, y);
        assert(block_closed(r, blocks[t]));
        let succ = successors(blocks[t].1.terminator);
        let kk = choose|kk: int| 0 <= kk < succ.len() && succ[kk] == x;
        assert(match set_of(r, succ[kk]) {
            Some(u) => u.subset_of(set_of(r, y).unwrap().union(block_gen(blocks[t].1))),
            None => false,
        });
    }
}

proof fn lemma_must_step(blocks: Seq<(String, Block)>, entry: Seq<char>, init: Set<Seq<char>>, i: int, next: Seq<char>)
    requires
        0 <= i < blocks.len(),
        successors(blocks[i].1.terminator).contains(next),
    ensures
        must_assigned(blocks, entry, init, next).subset_of(must_assigned(blocks, entry, init, blocks[i].0@).union(block_gen(blocks[i].1))),
{
    assert forall|v: Seq<char>| must_assigned(blocks, entry, init, next).contains(v) implies
        must_assigned(blocks, entry, init, blocks[i].0@).union(block_gen(blocks[i].1)).contains(v) by {
        if !block_gen(blocks[i].1).contains(v) {
            assert forall|q: Seq<int>| #[trigger] walk_to(blocks, entry, q, blocks[i].0@) implies walk_gen(blocks, init, q).contains(v) by {
                lemma_walk_extend(blocks, entry, init, q, i, next);
                assert(walk_to(blocks, entry, q.push(i), next));
            }
        }
    }
}

proof fn lemma_gen_in_all(blocks: Seq<(String, Block)>, i: int)
    requires
        0 <= i < blocks.len(),
    ensures
        block_gen(blocks[i].1).subset_of(all_gen(blocks).to_set()),
    decreases blocks.len(),
{
    let g = ops_gen(blocks.last().1.ops@) + call_result(blocks.last().1.terminator);
    assert(all_gen(blocks) == all_gen(blocks.drop_last()) + ops_gen(blocks.last().1.ops@) + call_result(blocks.last().1.terminator));
    assert(all_gen(blocks) =~= all_gen(blocks.drop_last()) + g);
    if i < blocks.len() - 1 {
        lemma_gen_in_all(blocks.drop_last(), i);
        assert(blocks.drop_last()[i] == blocks[i]);
        assert forall|x: Seq<char>| block_gen(blocks[i].1).contains(x) implies all_gen(blocks).to_set().contains(x) by {
            let a = all_gen(blocks.drop_last());
            assert(a.to_set().contains(x));
            let j = choose|j: int| 0 <= j < a.len() && a[j] == x;
            assert(all_gen(blocks)[j] == x);
        }
    } else {
        assert forall|x: Seq<char>| block_gen(blocks[i].1).contains(x) implies all_gen(blocks).to_set().contains(x) by {
            let j = choose|j: int| 0 <= j < g.len() && g[j] == x;
            let a = all_gen(blocks.drop_last());
            assert(all_gen(blocks)[a.len() + j] == x);
        }
    }
}

proof fn lemma_successor_in_all(blocks: Seq<(String, Block)>, i: int, k: int)
    requires
        0 <= i < blocks.len(),
        0 <= k < successors(blocks[i].1.terminator).len(),
    ensures
        all_successors(blocks).contains(successors(blocks[i].1.terminator)[k]),
    decreases blocks.len(),
{
    let a = all_successors(blocks.drop_last());
    let x = successors(blocks[i].1.terminator)[k];
    if i < blocks.len() - 1 {
        lemma_successor_in_all(blocks.drop_last(), i, k);
        assert(blocks.drop_last()[i] == blocks[i]);
        let j = choose|j: int| 0 <= j < a.len() && a[j] == x;
        assert(all_successors(blocks)[j] == x);
    } else {
        assert(all_successors(blocks)[a.len() + k] == x);
    }
}

proof fn lemma_strictly_smaller(a: Set<Seq<char>>, b: Set<Seq<char>>)
    requires
        a.subset_of(b),
        a != b,
        b.finite(),
    ensures
        a.len() < b.len(),
{
    let x = choose|x: Seq<char>| b.contains(x) && !a.contains(x);
    if !(exists|x: Seq<char>| b.contains(x) && !a.contains(x)) {
        assert(a =~= b);
    }
    assert(a.subset_of(b.remove(x)));
    vstd::set_lib::lemma_len_subset(a, b.remove(x));
}

/// For each block that the entry reaches, the variables assigned on every
/// path from the entry to it (a superset of what the returned sets hold is
/// assigned on each such path; see `assigned_on_paths`). The analysis
/// starts the entry from the program's variables and the parameters and
/// lowers each set to the intersection of what its predecessors assign,
/// until nothing changes.
pub fn incoming_sets(f: &Function, globals: &Vec<String>) -> (r: Vec<(String, Vec<String>)>)
    ensures
        set_of(r@, f.entry@) is Some,
        set_of(r@, f.entry@).unwrap().subset_of(initial_set(globals@, f.params@)),
        closed(r@, f.blocks@),
        forall|x: Seq<char>| #[trigger] set_of(r@, x) is Some <==> reaches(f.blocks@, f.entry@, x),
        forall|x: Seq<char>| reaches(f.blocks@, f.entry@, x)
            ==> #[trigger] set_of(r@, x).unwrap() == must_assigned(f.blocks@, f.entry@, initial_set(globals@, f.params@), x),
{
    let mut initial = copy_names(globals);
    let mut p: usize = 0;
    proof {
        assert(f.params@.subrange(0, 0).map_values(|q: (String, ValueType)| q.0@).to_set() =~= Set::empty());
        assert(names_in(initial@) =~= names_in(globals@).union(Set::empty()));
    }
    while p < f.params.len()
        invariant
            p <= f.params@.len(),
            names_in(initial@) == names_in(globals@).union(f.params@.subrange(0, p as int).map_values(|q: (String, ValueType)| q.0@).to_set()),
        decreases f.params@.len() - p,
    {
        crate::assoc::add_name(&mut initial, f.params[p].0.clone());
        proof {
            let pre = f.params@.subrange(0, p as int).map_values(|q: (String, ValueType)| q.0@);
            let next = f.params@.subrange(0, p + 1).map_values(|q: (String, ValueType)| q.0@);
            assert(next =~= pre.push(f.params@[p as int].0@));
            pre.lemma_push_to_set_commute(f.params@[p as int].0@);
            assert(names_in(initial@) =~= names_in(globals@).union(next.to_set()));
        }
        p = p + 1;
    }
    proof {
        assert(f.params@.subrange(0, f.params@.len() as int) =~= f.params@);
    }
    let ghost init = initial_set(globals@, f.params@);
    let ghost useq = globals@.map_values(|x: String| x@) + f.params@.map_values(|q: (String, ValueType)| q.0@) + all_gen(f.blocks@);
    let ghost uset = useq.to_set();
    let ghost u = uset.len();
    let ghost ks = seq![f.entry@] + all_successors(f.blocks@);
    proof {
        broadcast use vstd::seq_lib::seq_to_set_is_finite;
        lemma_names_finite(globals@);
        assert(init.subset_of(uset)) by {
            assert forall|x: Seq<char>| init.contains(x) implies uset.contains(x) by {
                let gv = globals@.map_values(|y: String| y@);
                let pv = f.params@.map_values(|q: (String, ValueType)| q.0@);
                if gv.to_set().contains(x) {
                    let j = choose|j: int| 0 <= j < gv.len() && gv[j] == x;
                    assert(useq[j] == x);
                } else {
                    let j = choose|j: int| 0 <= j < pv.len() && pv[j] == x;
                    assert(useq[gv.len() + j] == x);
                }
            }
        }
        assert(ks[0] == f.entry@);
    }
    let mut incoming: Vec<(String, Vec<String>)> = Vec::new();
    incoming.push((f.entry.clone(), initial));
    proof {
        crate::assoc::lemma_assoc_first(incoming@, f.entry@, 0);
        let none = Seq::<int>::empty();
        assert(walk_to(f.blocks@, f.entry@, none, f.entry@));
        assert forall|v: Seq<char>| must_assigned(f.blocks@, f.entry@, init, f.entry@).contains(v) implies init.contains(v) by {
            assert(walk_to(f.blocks@, f.entry@, none, f.entry@));
        }
        assert forall|x: Seq<char>| #[trigger] assoc_keys(incoming@).contains(x) implies ks.contains(x)
            && reaches(f.blocks@, f.entry@, x)
            && must_assigned(f.blocks@, f.entry@, init, x).subset_of(names_in(assoc(incoming@, x).unwrap()@)) by {
            let j = choose|j: int| 0 <= j < incoming@.len() && (#[trigger] incoming@[j]).0@ == x;
            assert(x == f.entry@);
        }
    }
    loop
        invariant
            uset.finite(),
            u == uset.len(),
            init.subset_of(uset),
            ks == seq![f.entry@] + all_successors(f.blocks@),
            uset == useq.to_set(),
            useq == globals@.map_values(|x: String| x@) + f.params@.map_values(|q: (String, ValueType)| q.0@) + all_gen(f.blocks@),
            set_of(incoming@, f.entry@) is Some,
            set_of(incoming@, f.entry@).unwrap().subset_of(init),
            forall|x: Seq<char>| #[trigger] assoc_keys(incoming@).contains(x) ==> ks.contains(x),
            forall|x: Seq<char>| #[trigger] assoc_keys(incoming@).contains(x) ==> names_in(assoc(incoming@, x).unwrap()@).subset_of(uset),
            forall|x: Seq<char>| #[trigger] assoc_keys(incoming@).contains(x) ==> reaches(f.blocks@, f.entry@, x)
                && must_assigned(f.blocks@, f.entry@, init, x).subset_of(names_in(assoc(incoming@, x).unwrap()@)),
        ensures
            set_of(incoming@, f.entry@) is Some,
            set_of(incoming@, f.entry@).unwrap().subset_of(init),
            closed(incoming@, f.blocks@),
            forall|x: Seq<char>| #[trigger] assoc_keys(incoming@).contains(x) ==> reaches(f.blocks@, f.entry@, x)
                && must_assigned(f.blocks@, f.entry@, init, x).subset_of(names_in(assoc(incoming@, x).unwrap()@)),
        decreases measure(incoming@, ks, u),
    {
        let ghost start = incoming@;
        let mut changed = false;
        let mut i: usize = 0;
        while i < f.blocks.len()
            invariant
                i <= f.blocks@.len(),
                uset.finite(),
                u == uset.len(),
                init.subset_of(uset),
                ks == seq![f.entry@] + all_successors(f.blocks@),
                uset == useq.to_set(),
                useq == globals@.map_values(|x: String| x@) + f.params@.map_values(|q: (String, ValueType)| q.0@) + all_gen(f.blocks@),
                set_of(incoming@, f.entry@) is Some,
                set_of(incoming@, f.entry@).unwrap().subset_of(init),
                forall|x: Seq<char>| #[trigger] assoc_keys(incoming@).contains(x) ==> ks.contains(x),
                forall|x: Seq<char>| #[trigger] assoc_keys(incoming@).contains(x) ==> names_in(assoc(incoming@, x).unwrap()@).subset_of(uset),
                forall|x: Seq<char>| #[trigger] assoc_keys(incoming@).contains(x) ==> reaches(f.blocks@, f.entry@, x)
                    && must_assigned(f.blocks@, f.entry@, init, x).subset_of(names_in(assoc(incoming@, x).unwrap()@)),
                measure(incoming@, ks, u) <= measure(start, ks, u),
                changed ==> measure(incoming@, ks, u) < measure(start, ks, u),
                !changed ==> incoming@ == start,
                !changed ==> forall|j: int| 0 <= j < i ==> block_closed(incoming@, #[trigger] f.blocks@[j]),
            decreases f.blocks@.len() - i,
        {
            let bid = &f.blocks[i].0;
            let b = &f.blocks[i].1;
            let found = match get_entry(&incoming, bid.as_str()) {
                Some(v) => Some(copy_names(v)),
                None => None,
            };
            match found {
                None => {
                    proof {
                        assert(block_closed(incoming@, f.blocks@[i as int]));
                    }
                },
                Some(s) => {
                    let ghost sset = names_in(s@);
                    proof {
                        lemma_names_finite(s@);
                        lemma_gen_in_all(f.blocks@, i as int);
                        assert(all_gen(f.blocks@).to_set().subset_of(uset)) by {
                            assert forall|x: Seq<char>| all_gen(f.blocks@).to_set().contains(x) implies uset.contains(x) by {
                                let a = all_gen(f.blocks@);
                                let j = choose|j: int| 0 <= j < a.len() && a[j] == x;
                                let pre = globals@.map_values(|y: String| y@) + f.params@.map_values(|q: (String, ValueType)| q.0@);
                                assert(useq[pre.len() + j] == x);
                            }
                        }
                        assert(assoc_keys(incoming@).contains(bid@)) by {
                            crate::assoc::lemma_assoc_some(incoming@, bid@);
                        }
                        assert(reaches(f.blocks@, f.entry@, bid@));
                        assert(must_assigned(f.blocks@, f.entry@, init, bid@).subset_of(sset));
                    }
                    let assigned = block_out(&s, b);
                    let nexts = outgoing(&b.terminator);
                    let mut k: usize = 0;
                    while k < nexts.len()
                        invariant
                            i < f.blocks@.len(),
                            bid == f.blocks@[i as int].0,
                            *b == f.blocks@[i as int].1,
                            k <= nexts@.len(),
                            nexts@.map_values(|x: String| x@) == successors(b.terminator),
                            names_in(assigned@) == sset.union(block_gen(*b)),
                            sset.subset_of(uset),
                            block_gen(*b).subset_of(uset),
                            uset.finite(),
                            u == uset.len(),
                            init.subset_of(uset),
                            ks == seq![f.entry@] + all_successors(f.blocks@),
                            set_of(incoming@, f.entry@) is Some,
                            set_of(incoming@, f.entry@).unwrap().subset_of(init),
                            forall|x: Seq<char>| #[trigger] assoc_keys(incoming@).contains(x) ==> ks.contains(x),
                            forall|x: Seq<char>| #[trigger] assoc_keys(incoming@).contains(x) ==> names_in(assoc(incoming@, x).unwrap()@).subset_of(uset),
                            forall|x: Seq<char>| #[trigger] assoc_keys(incoming@).contains(x) ==> reaches(f.blocks@, f.entry@, x)
                                && must_assigned(f.blocks@, f.entry@, init, x).subset_of(names_in(assoc(incoming@, x).unwrap()@)),
                            reaches(f.blocks@, f.entry@, bid@),
                            must_assigned(f.blocks@, f.entry@, init, bid@).subset_of(sset),
                            measure(incoming@, ks, u) <= measure(start, ks, u),
                            changed ==> measure(incoming@, ks, u) < measure(start, ks, u),
                            !changed ==> incoming@ == start,
                            !changed ==> set_of(incoming@, bid@) == Some(sset),
                            !changed ==> forall|j: int| 0 <= j < i ==> block_closed(incoming@, #[trigger] f.blocks@[j]),
                            !changed ==> forall|kk: int| 0 <= kk < k ==> match set_of(incoming@, #[trigger] successors(b.terminator)[kk]) {
                                Some(t) => t.subset_of(sset.union(block_gen(*b))),
                                None => false,
                            },
                        decreases nexts@.len() - k,
                    {
                        let next = &nexts[k];
                        proof {
                            assert(successors(b.terminator)[k as int] == next@);
                            lemma_successor_in_all(f.blocks@, i as int, k as int);
                            assert(ks.contains(next@)) by {
                                let a = all_successors(f.blocks@);
                                let j = choose|j: int| 0 <= j < a.len() && a[j] == next@;
                                assert(ks[j + 1] == next@);
                            }
                        }
                        let merged = match get_entry(&incoming, next.as_str()) {
                            Some(old) => intersect(old, &assigned),
                            None => copy_names(&assigned),
                        };
                        let same = match get_entry(&incoming, next.as_str()) {
                            Some(old) => crate::assoc::same_names(old, &merged),
                            None => false,
                        };
                        proof {
                            lemma_names_finite(merged@);
                            assert(names_in(merged@).subset_of(uset)) by {
                                if assoc(incoming@, next@) is Some {
                                    assert(assoc_keys(incoming@).contains(next@)) by {
                                        crate::assoc::lemma_assoc_some(incoming@, next@);
                                    }
                                }
                            }
                        }
                        if !same {
                            let ghost before = incoming@;
                            let ghost was = assoc(before, next@);
                            proof {
                                vstd::set_lib::lemma_len_subset(names_in(merged@), uset);
                                match was {
                                    Some(old) => {
                                        lemma_names_finite(old@);
                                        lemma_strictly_smaller(names_in(merged@), names_in(old@));
                                        assert(cost(before, next@, u) == names_in(old@).len());
                                    },
                                    None => {
                                        assert(cost(before, next@, u) == u + 1);
                                    },
                                }
                            }
                            proof {
                                let w = choose|w: Seq<int>| #[trigger] walk_to(f.blocks@, f.entry@, w, bid@);
                                assert(successors(f.blocks@[i as int].1.terminator)[k as int] == next@);
                                lemma_walk_extend(f.blocks@, f.entry@, init, w, i as int, next@);
                                assert(reaches(f.blocks@, f.entry@, next@));
                                lemma_must_step(f.blocks@, f.entry@, init, i as int, next@);
                                if was is Some {
                                    assert(assoc_keys(before).contains(next@)) by {
                                        crate::assoc::lemma_assoc_some(before, next@);
                                    }
                                }
                                assert(must_assigned(f.blocks@, f.entry@, init, next@).subset_of(names_in(merged@)));
                            }
                            put_entry(&mut incoming, next.clone(), merged);
                            proof {
                                assert(cost(incoming@, next@, u) == names_in(merged@).len());
                                lemma_measure_update(before, incoming@, next@, ks, u);
                                assert forall|x: Seq<char>| #[trigger] assoc_keys(incoming@).contains(x) implies ks.contains(x)
                                    && names_in(assoc(incoming@, x).unwrap()@).subset_of(uset)
                                    && reaches(f.blocks@, f.entry@, x)
                                    && must_assigned(f.blocks@, f.entry@, init, x).subset_of(names_in(assoc(incoming@, x).unwrap()@)) by {
                                    if x != next@ {
                                        assert(assoc_keys(before).contains(x));
                                    }
                                }
                                if next@ == f.entry@ {
                                    assert(was is Some);
                                }
                            }
                            changed = true;
                        } else {
                            proof {
                                assert(assoc(incoming@, next@) is Some);
                                let old = assoc(incoming@, next@).unwrap();
                                assert(names_in(old@) == names_in(merged@));
                                assert(names_in(old@).subset_of(sset.union(block_gen(*b))));
                                assert(set_of(incoming@, successors(b.terminator)[k as int]) == Some(names_in(old@)));
                            }
                        }
                        k = k + 1;
                    }
                    proof {
                        if !changed {
                            assert(block_closed(incoming@, f.blocks@[i as int]));
                        }
                    }
                },
            }
            i = i + 1;
        }
        if !changed {
            break;
        }
    }
    proof {
        assert forall|x: Seq<char>| #[trigger] set_of(incoming@, x) is Some <==> reaches(f.blocks@, f.entry@, x) by {
            crate::assoc::lemma_assoc_some(incoming@, x);
            if reaches(f.blocks@, f.entry@, x) {
                let w = choose|w: Seq<int>| #[trigger] walk_to(f.blocks@, f.entry@, w, x);
                lemma_closed_sound(incoming@, f.blocks@, f.entry@, init, w, x);
            }
        }
        assert forall|x: Seq<char>| reaches(f.blocks@, f.entry@, x)
            implies #[trigger] set_of(incoming@, x).unwrap() == must_assigned(f.blocks@, f.entry@, init, x) by {
            crate::assoc::lemma_assoc_some(incoming@, x);
            let w0 = choose|w: Seq<int>| #[trigger] walk_to(f.blocks@, f.entry@, w, x);
            lemma_closed_sound(incoming@, f.blocks@, f.entry@, init, w0, x);
            assert forall|v: Seq<char>| set_of(incoming@, x).unwrap().contains(v) implies must_assigned(f.blocks@, f.entry@, init, x).contains(v) by {
                assert forall|w: Seq<int>| #[trigger] walk_to(f.blocks@, f.entry@, w, x) implies walk_gen(f.blocks@, init, w).contains(v) by {
                    lemma_closed_sound(incoming@, f.blocks@, f.entry@, init, w, x);
                }
            }
            assert(set_of(incoming@, x).unwrap() =~= must_assigned(f.blocks@, f.entry@, init, x));
        }
    }
    incoming
}

/// The first assignment among `ops` whose value reads a variable not yet
/// assigned, when `s` is assigned before them: the operation's name and the
/// variable.
pub open spec fn ops_read_error(s: Set<Seq<char>>, ops: Seq<Op>) -> Option<(Seq<char>, Seq<char>)>
    decreases ops.len(),
{
    if ops.len() == 0 {
        None
    } else {
        match ops_read_error(s, ops.drop_last()) {
            Some(e) => Some(e),
            None => match ops.last().operation {
                Operation::Assign { value, .. } => match uninitialized_read(value, s.union(ops_gen(ops.drop_last()).to_set())) {
                    Some(v) => Some((ops.last().id@, v)),
                    None => None,
                },
                _ => None,
            },
        }
    }
}

/// The variable that the first of `es` to read an unassigned variable reads.
pub open spec fn exprs_read_error(a: Set<Seq<char>>, es: Seq<Expr>) -> Option<Seq<char>>
    decreases es.len(),
{
    if es.len() == 0 {
        None
    } else {
        match exprs_read_error(a, es.drop_last()) {
            Some(v) => Some(v),
            None => uninitialized_read(es.last(), a),
        }
    }
}

/// Where block `b`, named `at` in diagnostics, first reads an unassigned
/// variable when `s` is assigned at its start: an assignment, or else the
/// terminator.
pub open spec fn block_read_error(s: Set<Seq<char>>, b: Block, at: Seq<char>) -> Option<(Seq<char>, Seq<char>)> {
    match ops_read_error(s, b.ops@) {
        Some(e) => Some(e),
        None => match exprs_read_error(s.union(ops_gen(b.ops@).to_set()), terminator_exprs(b.terminator)) {
            Some(v) => Some((at, v)),
            None => None,
        },
    }
}

/// The first block, among the first `k`, that the entry reaches and that
/// reads a variable not assigned on every walk to it.
pub open spec fn definite_error(f: Function, fid: Seq<char>, init: Set<Seq<char>>, k: int) -> Option<(Seq<char>, Seq<char>)>
    decreases k,
{
    if k <= 0 {
        None
    } else {
        match definite_error(f, fid, init, k - 1) {
            Some(e) => Some(e),
            None => {
                let b = f.blocks@[k - 1];
                if reaches(f.blocks@, f.entry@, b.0@) {
                    block_read_error(must_assigned(f.blocks@, f.entry@, init, b.0@), b.1, fid + "/"@ + b.0@)
                } else {
                    None
                }
            },
        }
    }
}

proof fn lemma_name_sets(v: Seq<String>)
    ensures
        name_set(v) == names_in(v),
{
    assert(name_set(v) =~= names_in(v));
}

proof fn lemma_definite_error_stays(f: Function, fid: Seq<char>, init: Set<Seq<char>>, k: int, m: int)
    requires
        0 <= k <= m,
        definite_error(f, fid, init, k) is Some,
    ensures
        definite_error(f, fid, init, m) == definite_error(f, fid, init, k),
    decreases m - k,
{
    if k < m {
        lemma_definite_error_stays(f, fid, init, k, m - 1);
    }
}

/// Checks that function `fid` reads no variable before it is assigned: in
/// every block that the entry reaches, each assignment and the terminator
/// read only variables assigned on every walk from the entry (the program's
/// variables and the parameters at the start) or earlier in the block. The
/// first read that fails, in block and operation order, is the error.
pub fn check_definite(f: &Function, fid: &str, globals: &Vec<String>) -> (r: Result<(), Diagnostic>)
    ensures
        match definite_error(*f, fid@, initial_set(globals@, f.params@), f.blocks@.len() as int) {
            Some(e) => r matches Err(d) && diag_is(d, "E_UNINITIALIZED"@, e.0, e.1),
            None => r is Ok,
        },
{
    let incoming = incoming_sets(f, globals);
    let ghost init = initial_set(globals@, f.params@);
    let mut i: usize = 0;
    while i < f.blocks.len()
        invariant
            i <= f.blocks@.len(),
            init == initial_set(globals@, f.params@),
            forall|x: Seq<char>| #[trigger] set_of(incoming@, x) is Some <==> reaches(f.blocks@, f.entry@, x),
            forall|x: Seq<char>| reaches(f.blocks@, f.entry@, x)
                ==> #[trigger] set_of(incoming@, x).unwrap() == must_assigned(f.blocks@, f.entry@, init, x),
            definite_error(*f, fid@, init, i as int) is None,
        decreases f.blocks@.len() - i,
    {
        let bid = &f.blocks[i].0;
        let b = &f.blocks[i].1;
        let ghost at = fid@ + "/"@ + bid@;
        match get_entry(&incoming, bid.as_str()) {
            None => {
                proof {
                    assert(set_of(incoming@, bid@) is None);
                    assert(!reaches(f.blocks@, f.entry@, bid@));
                }
            },
            Some(v) => {
                let ghost m = must_assigned(f.blocks@, f.entry@, init, bid@);
                proof {
                    assert(set_of(incoming@, bid@) == Some(names_in(v@)));
                    assert(reaches(f.blocks@, f.entry@, bid@));
                    assert(set_of(incoming@, bid@).unwrap() == m);
                    assert(names_in(v@) == m);
                }
                let mut assigned = copy_names(v);
                let mut j: usize = 0;
                proof {
                    assert(b.ops@.subrange(0, 0) =~= Seq::<Op>::empty());
                    assert(m.union(ops_gen(Seq::<Op>::empty()).to_set()) =~= m);
                }
                while j < b.ops.len()
                    invariant
                        i < f.blocks@.len(),
                        *b == f.blocks@[i as int].1,
                        bid == f.blocks@[i as int].0,
                        at == fid@ + "/"@ + bid@,
                        init == initial_set(globals@, f.params@),
                        reaches(f.blocks@, f.entry@, bid@),
                        m == must_assigned(f.blocks@, f.entry@, init, bid@),
                        definite_error(*f, fid@, init, i as int) is None,
                        j <= b.ops@.len(),
                        names_in(assigned@) == m.union(ops_gen(b.ops@.subrange(0, j as int)).to_set()),
                        ops_read_error(m, b.ops@.subrange(0, j as int)) is None,
                    decreases b.ops@.len() - j,
                {
                    let ghost pre = b.ops@.subrange(0, j as int);
                    let ghost next = b.ops@.subrange(0, j + 1);
                    proof {
                        assert(next.drop_last() =~= pre);
                        assert(next.last() == b.ops@[j as int]);
                    }
                    let op = &b.ops[j];
                    match &op.operation {
                        Operation::Assign { target, value } => {
                            proof {
                                lemma_name_sets(assigned@);
                            }
                            match check_reads(value, &assigned, op.id.as_str()) {
                                Ok(()) => {},
                                Err(d) => {
                                    proof {
                                        assert(ops_read_error(m, next) is Some);
                                        lemma_ops_error_stays(m, b.ops@, j as int + 1);
                                        assert(block_read_error(m, *b, at) == ops_read_error(m, next));
                                        assert(definite_error(*f, fid@, init, i as int + 1) == ops_read_error(m, next));
                                        lemma_definite_error_stays(*f, fid@, init, i as int + 1, f.blocks@.len() as int);
                                    }
                                    return Err(d);
                                },
                            }
                            crate::assoc::add_name(&mut assigned, target.clone());
                            proof {
                                assert(ops_gen(next) == ops_gen(pre).push(target@));
                                ops_gen(pre).lemma_push_to_set_commute(target@);
                                assert(names_in(assigned@) =~= m.union(ops_gen(next).to_set()));
                            }
                        },
                        Operation::Random { target, .. } => {
                            crate::assoc::add_name(&mut assigned, target.clone());
                            proof {
                                assert(ops_gen(next) == ops_gen(pre).push(target@));
                                ops_gen(pre).lemma_push_to_set_commute(target@);
                                assert(names_in(assigned@) =~= m.union(ops_gen(next).to_set()));
                            }
                        },
                        _ => {
                            proof {
                                assert(ops_gen(next) == ops_gen(pre));
                            }
                        },
                    }
                    j = j + 1;
                }
                proof {
                    assert(b.ops@.subrange(0, b.ops@.len() as int) =~= b.ops@);
                    lemma_name_sets(assigned@);
                }
                let label = concat3(fid, "/", bid.as_str());
                let es = term_exprs(&b.terminator);
                let ghost a = m.union(ops_gen(b.ops@).to_set());
                let ghost tes = terminator_exprs(b.terminator);
                let mut t: usize = 0;
                proof {
                    assert(tes.subrange(0, 0) =~= Seq::<Expr>::empty());
                }
                while t < es.len()
                    invariant
                        i < f.blocks@.len(),
                        *b == f.blocks@[i as int].1,
                        bid == f.blocks@[i as int].0,
                        at == fid@ + "/"@ + bid@,
                        init == initial_set(globals@, f.params@),
                        reaches(f.blocks@, f.entry@, bid@),
                        m == must_assigned(f.blocks@, f.entry@, init, bid@),
                        definite_error(*f, fid@, init, i as int) is None,
                        ops_read_error(m, b.ops@) is None,
                        a == m.union(ops_gen(b.ops@).to_set()),
                        label@ == at,
                        tes == terminator_exprs(b.terminator),
                        es@.len() == tes.len(),
                        forall|q: int| 0 <= q < es@.len() ==> *es@[q] == tes[q],
                        name_set(assigned@) == a,
                        t <= es@.len(),
                        exprs_read_error(a, tes.subrange(0, t as int)) is None,
                    decreases es@.len() - t,
                {
                    proof {
                        assert(tes.subrange(0, t + 1).drop_last() =~= tes.subrange(0, t as int));
                        assert(tes.subrange(0, t + 1).last() == tes[t as int]);
                    }
                    match check_reads(es[t], &assigned, label.as_str()) {
                        Ok(()) => {},
                        Err(d) => {
                            proof {
                                lemma_exprs_error_stays(a, tes, t as int + 1);
                                assert(block_read_error(m, *b, at) == Some((at, exprs_read_error(a, tes).unwrap())));
                                assert(definite_error(*f, fid@, init, i as int + 1) == block_read_error(m, *b, at));
                                lemma_definite_error_stays(*f, fid@, init, i as int + 1, f.blocks@.len() as int);
                            }
                            return Err(d);
                        },
                    }
                    t = t + 1;
                }
                proof {
                    assert(tes.subrange(0, tes.len() as int) =~= tes);
                    assert(block_read_error(m, *b, at) is None);
                }
            },
        }
        i = i + 1;
    }
    Ok(())
}

proof fn lemma_ops_error_stays(s: Set<Seq<char>>, ops: Seq<Op>, n: int)
    requires
        0 <= n <= ops.len(),
        ops_read_error(s, ops.subrange(0, n)) is Some,
    ensures
        ops_read_error(s, ops) == ops_read_error(s, ops.subrange(0, n)),
    decreases ops.len(),
{
    if n < ops.len() {
        assert(ops.drop_last().subrange(0, n) =~= ops.subrange(0, n));
        lemma_ops_error_stays(s, ops.drop_last(), n);
    } else {
        assert(ops.subrange(0, n) =~= ops);
    }
}

proof fn lemma_exprs_error_stays(a: Set<Seq<char>>, es: Seq<Expr>, n: int)
    requires
        0 <= n <= es.len(),
        exprs_read_error(a, es.subrange(0, n)) is Some,
    ensures
        exprs_read_error(a, es) == exprs_read_error(a, es.subrange(0, n)),
    decreases es.len(),
{
    if n < es.len() {
        assert(es.drop_last().subrange(0, n) =~= es.subrange(0, n));
        lemma_exprs_error_stays(a, es.drop_last(), n);
    } else {
        assert(es.subrange(0, n) =~= es);
    }
}


proof fn lemma_no_uninitialized(e: Expr, a: Set<Seq<char>>)
    requires
        uninitialized_read(e, a) is None,
    ensures
        expr_reads(e).subset_of(a),
{
    let pending = expr_reads(e).difference(a);
    assert forall|v: Seq<char>| expr_reads(e).contains(v) implies a.contains(v) by {
        if !a.contains(v) {
            assert(pending.contains(v));
            assert(!Set::<Seq<char>>::empty().contains(v));
        }
    }
}

proof fn lemma_definite_prefix(f: Function, fid: Seq<char>, init: Set<Seq<char>>, k: int, m: int)
    requires
        0 <= k <= m,
        definite_error(f, fid, init, m) is None,
    ensures
        definite_error(f, fid, init, k) is None,
    decreases m - k,
{
    if k < m {
        lemma_definite_prefix(f, fid, init, k, m - 1);
    }
}

proof fn lemma_ops_prefix(s: Set<Seq<char>>, ops: Seq<Op>, n: int)
    requires
        0 <= n <= ops.len(),
        ops_read_error(s, ops) is None,
    ensures
        ops_read_error(s, ops.subrange(0, n)) is None,
    decreases ops.len(),
{
    if n < ops.len() {
        assert(ops.drop_last().subrange(0, n) =~= ops.subrange(0, n));
        lemma_ops_prefix(s, ops.drop_last(), n);
    } else {
        assert(ops.subrange(0, n) =~= ops);
    }
}

proof fn lemma_exprs_prefix(a: Set<Seq<char>>, es: Seq<Expr>, n: int)
    requires
        0 <= n <= es.len(),
        exprs_read_error(a, es) is None,
    ensures
        exprs_read_error(a, es.subrange(0, n)) is None,
    decreases es.len(),
{
    if n < es.len() {
        assert(es.drop_last().subrange(0, n) =~= es.subrange(0, n));
        lemma_exprs_prefix(a, es.drop_last(), n);
    } else {
        assert(es.subrange(0, n) =~= es);
    }
}

/// The block `i` passes the read check with what every walk to it assigns.
proof fn lemma_block_clean(f: Function, fid: Seq<char>, globals: Seq<String>, p: Seq<int>, i: int)
    requires
        definite_error(f, fid, initial_set(globals, f.params@), f.blocks@.len() as int) is None,
        0 <= i < f.blocks@.len(),
        walk_to(f.blocks@, f.entry@, p, f.blocks@[i].0@),
    ensures
        block_read_error(must_assigned(f.blocks@, f.entry@, initial_set(globals, f.params@), f.blocks@[i].0@),
            f.blocks@[i].1, fid + "/"@ + f.blocks@[i].0@) is None,
        must_assigned(f.blocks@, f.entry@, initial_set(globals, f.params@), f.blocks@[i].0@)
            .subset_of(walk_gen(f.blocks@, initial_set(globals, f.params@), p)),
{
    let init = initial_set(globals, f.params@);
    lemma_definite_prefix(f, fid, init, i + 1, f.blocks@.len() as int);
    assert(reaches(f.blocks@, f.entry@, f.blocks@[i].0@));
}

/// Definite assignment: when `check_definite` passes, on every walk from the
/// entry to a block, each assignment in the block reads only variables that
/// the walk assigned (the program's variables and the parameters count as
/// assigned at the entry) or that earlier operations of the block assigned.
pub proof fn assignments_read_assigned(f: Function, fid: Seq<char>, globals: Seq<String>, p: Seq<int>, i: int, j: int)
    requires
        definite_error(f, fid, initial_set(globals, f.params@), f.blocks@.len() as int) is None,
        0 <= i < f.blocks@.len(),
        walk_to(f.blocks@, f.entry@, p, f.blocks@[i].0@),
        0 <= j < f.blocks@[i].1.ops@.len(),
    ensures
        match f.blocks@[i].1.ops@[j].operation {
            Operation::Assign { value, .. } => expr_reads(value).subset_of(
                walk_gen(f.blocks@, initial_set(globals, f.params@), p).union(ops_gen(f.blocks@[i].1.ops@.subrange(0, j)).to_set())),
            _ => true,
        },
{
    let init = initial_set(globals, f.params@);
    let m = must_assigned(f.blocks@, f.entry@, init, f.blocks@[i].0@);
    let ops = f.blocks@[i].1.ops@;
    lemma_block_clean(f, fid, globals, p, i);
    assert(ops_read_error(m, ops) is None);
    lemma_ops_prefix(m, ops, j + 1);
    let next = ops.subrange(0, j + 1);
    assert(next.drop_last() =~= ops.subrange(0, j));
    assert(next.last() == ops[j]);
    match ops[j].operation {
        Operation::Assign { value, .. } => {
            lemma_no_uninitialized(value, m.union(ops_gen(ops.subrange(0, j)).to_set()));
        },
        _ => {},
    }
}

/// Definite assignment for terminators: when `check_definite` passes, on
/// every walk from the entry to a block, the block's terminator reads only
/// variables that the walk or the block's operations assigned.
pub proof fn terminators_read_assigned(f: Function, fid: Seq<char>, globals: Seq<String>, p: Seq<int>, i: int, t: int)
    requires
        definite_error(f, fid, initial_set(globals, f.params@), f.blocks@.len() as int) is None,
        0 <= i < f.blocks@.len(),
        walk_to(f.blocks@, f.entry@, p, f.blocks@[i].0@),
        0 <= t < terminator_exprs(f.blocks@[i].1.terminator).len(),
    ensures
        expr_reads(terminator_exprs(f.blocks@[i].1.terminator)[t]).subset_of(
            walk_gen(f.blocks@, initial_set(globals, f.params@), p).union(ops_gen(f.blocks@[i].1.ops@).to_set())),
{
    let init = initial_set(globals, f.params@);
    let m = must_assigned(f.blocks@, f.entry@, init, f.blocks@[i].0@);
    let b = f.blocks@[i].1;
    let a = m.union(ops_gen(b.ops@).to_set());
    let tes = terminator_exprs(b.terminator);
    lemma_block_clean(f, fid, globals, p, i);
    assert(exprs_read_error(a, tes) is None);
    lemma_exprs_prefix(a, tes, t + 1);
    let next = tes.subrange(0, t + 1);
    assert(next.drop_last() =~= tes.subrange(0, t));
    assert(next.last() == tes[t]);
    lemma_no_uninitialized(tes[t], a);
}

} // verus!
