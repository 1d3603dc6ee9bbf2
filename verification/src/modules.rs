//! The module call graph of a program, and the paths by which the entry
//! module reaches the other modules.
use crate::assoc::{assoc, assoc_keys, distinct_names, get_entry, position_of};
use crate::format::{Block, Cue, Effect, EffectDef, Function, Node, Terminator};
use crate::locale::{LocaleConfig, LocaleFontPlan};
use crate::text::string_views;
use crate::strings::{concat, concat3, err_text, owned, str_eq};
use crate::table::names_in;
use vstd::prelude::*;

verus! {

/// The function a block calls, if it ends in a call.
pub open spec fn block_call(b: Block) -> Option<Seq<char>> {
    match b.terminator {
        Terminator::Call { function, .. } => Some(function@),
        _ => None,
    }
}

/// The functions that `blocks` call, in block order.
pub open spec fn call_targets(blocks: Seq<(String, Block)>) -> Seq<Seq<char>>
    decreases blocks.len(),
{
    if blocks.len() == 0 {
        Seq::empty()
    } else {
        let rest = call_targets(blocks.drop_last());
        match block_call(blocks.last().1) {
            Some(t) => rest.push(t),
            None => rest,
        }
    }
}

/// The module that owns `name`.
pub open spec fn owner_of(owners: Seq<(String, String)>, name: Seq<char>) -> Option<Seq<char>> {
    match assoc(owners, name) {
        Some(m) => Some(m@),
        None => None,
    }
}

/// The error for a function `name` that no module owns.
pub open spec fn unowned_function(name: Seq<char>) -> Seq<char> {
    "E_MODULE_OWNERSHIP: no module owns function "@ + name
}

/// The error for an entry function `name` that no module owns.
pub open spec fn unowned_entry(name: Seq<char>) -> Seq<char> {
    "E_MODULE_OWNERSHIP: no module owns entry "@ + name
}

/// The first of `names` that no module owns.
pub open spec fn first_unowned(owners: Seq<(String, String)>, names: Seq<Seq<char>>) -> Option<Seq<char>>
    decreases names.len(),
{
    if names.len() == 0 {
        None
    } else {
        match first_unowned(owners, names.drop_last()) {
            Some(t) => Some(t),
            None => if owner_of(owners, names.last()) is None { Some(names.last()) } else { None },
        }
    }
}

/// Why function `f` has no place in the graph: it, or a function that it
/// calls, has no owner.
pub open spec fn function_refusal(owners: Seq<(String, String)>, f: (String, Function)) -> Option<Seq<char>> {
    if owner_of(owners, f.0@) is None {
        Some(unowned_function(f.0@))
    } else {
        match first_unowned(owners, call_targets(f.1.blocks@)) {
            Some(t) => Some(unowned_function(t)),
            None => None,
        }
    }
}

/// The refusal of the first function, in order, that has one.
pub open spec fn graph_refusal(owners: Seq<(String, String)>, fs: Seq<(String, Function)>) -> Option<Seq<char>>
    decreases fs.len(),
{
    if fs.len() == 0 {
        None
    } else {
        match graph_refusal(owners, fs.drop_last()) {
            Some(m) => Some(m),
            None => function_refusal(owners, fs.last()),
        }
    }
}

/// The calls made by `name` through `targets`, as (caller, callee) pairs.
pub open spec fn calls_of(name: Seq<char>, targets: Seq<Seq<char>>) -> Seq<(Seq<char>, Seq<char>)> {
    targets.map_values(|t: Seq<char>| (name, t))
}

/// Every call that functions `fs` make, as (caller, callee) pairs in order.
pub open spec fn calls(fs: Seq<(String, Function)>) -> Seq<(Seq<char>, Seq<char>)>
    decreases fs.len(),
{
    if fs.len() == 0 {
        Seq::empty()
    } else {
        calls(fs.drop_last()) + calls_of(fs.last().0@, call_targets(fs.last().1.blocks@))
    }
}

/// The other modules that module `m` calls into through the calls `cs`.
pub open spec fn callees(owners: Seq<(String, String)>, cs: Seq<(Seq<char>, Seq<char>)>, m: Seq<char>) -> Set<Seq<char>> {
    Set::new(|t: Seq<char>| t != m && exists|k: int| 0 <= k < cs.len()
        && owner_of(owners, (#[trigger] cs[k]).0) == Some(m) && owner_of(owners, cs[k].1) == Some(t))
}

/// Every call between two different owned modules leaves from a listed module.
pub open spec fn owners_listed(owners: Seq<(String, String)>, cs: Seq<(Seq<char>, Seq<char>)>, modules: Seq<String>) -> bool {
    forall|k: int| 0 <= k < cs.len() ==> match (owner_of(owners, (#[trigger] cs[k]).0), owner_of(owners, cs[k].1)) {
        (Some(a), Some(b)) => a != b ==> names_in(modules).contains(a),
        _ => true,
    }
}

proof fn lemma_callees_push(owners: Seq<(String, String)>, cs: Seq<(Seq<char>, Seq<char>)>, c: (Seq<char>, Seq<char>), m: Seq<char>)
    ensures
        callees(owners, cs.push(c), m) == (match (owner_of(owners, c.0), owner_of(owners, c.1)) {
            (Some(a), Some(b)) => if a == m && b != m { callees(owners, cs, m).insert(b) } else { callees(owners, cs, m) },
            _ => callees(owners, cs, m),
        }),
{
    let n = cs.push(c);
    let expected = match (owner_of(owners, c.0), owner_of(owners, c.1)) {
        (Some(a), Some(b)) => if a == m && b != m { callees(owners, cs, m).insert(b) } else { callees(owners, cs, m) },
        _ => callees(owners, cs, m),
    };
    assert forall|t: Seq<char>| callees(owners, n, m).contains(t) <==> expected.contains(t) by {
        if callees(owners, n, m).contains(t) {
            let k = choose|k: int| 0 <= k < n.len() && owner_of(owners, (#[trigger] n[k]).0) == Some(m) && owner_of(owners, n[k].1) == Some(t);
            if k < cs.len() {
                assert(n[k] == cs[k]);
                assert(callees(owners, cs, m).contains(t));
            }
        }
        if callees(owners, cs, m).contains(t) {
            let k = choose|k: int| 0 <= k < cs.len() && owner_of(owners, (#[trigger] cs[k]).0) == Some(m) && owner_of(owners, cs[k].1) == Some(t);
            assert(n[k] == cs[k]);
        }
        if expected.contains(t) && !callees(owners, cs, m).contains(t) {
            assert(n[cs.len() as int] == c);
        }
    }
    assert(callees(owners, n, m) =~= expected);
}

proof fn lemma_calls_prefix(fs: Seq<(String, Function)>, n: int)
    requires
        0 <= n <= fs.len(),
    ensures
        calls(fs.subrange(0, n)).len() <= calls(fs).len(),
        forall|k: int| 0 <= k < calls(fs.subrange(0, n)).len() ==> calls(fs.subrange(0, n))[k] == #[trigger] calls(fs)[k],
    decreases fs.len(),
{
    if n < fs.len() {
        assert(fs.drop_last().subrange(0, n) =~= fs.subrange(0, n));
        lemma_calls_prefix(fs.drop_last(), n);
    } else {
        assert(fs.subrange(0, n) =~= fs);
    }
}

proof fn lemma_refusal_prefix(owners: Seq<(String, String)>, fs: Seq<(String, Function)>, n: int)
    requires
        0 <= n <= fs.len(),
        graph_refusal(owners, fs.subrange(0, n)) is Some,
    ensures
        graph_refusal(owners, fs) == graph_refusal(owners, fs.subrange(0, n)),
    decreases fs.len(),
{
    if n < fs.len() {
        assert(fs.drop_last().subrange(0, n) =~= fs.subrange(0, n));
        lemma_refusal_prefix(owners, fs.drop_last(), n);
    } else {
        assert(fs.subrange(0, n) =~= fs);
    }
}

proof fn lemma_targets_prefix(blocks: Seq<(String, Block)>, n: int)
    requires
        0 <= n <= blocks.len(),
    ensures
        call_targets(blocks.subrange(0, n)).len() <= call_targets(blocks).len(),
        call_targets(blocks).subrange(0, call_targets(blocks.subrange(0, n)).len() as int) == call_targets(blocks.subrange(0, n)),
    decreases blocks.len(),
{
    if n < blocks.len() {
        assert(blocks.drop_last().subrange(0, n) =~= blocks.subrange(0, n));
        lemma_targets_prefix(blocks.drop_last(), n);
        let rest = call_targets(blocks.drop_last());
        let m = call_targets(blocks.subrange(0, n)).len() as int;
        match block_call(blocks.last().1) {
            Some(t) => {
                assert(rest.push(t).subrange(0, m) =~= rest.subrange(0, m));
            },
            None => {},
        }
    } else {
        assert(blocks.subrange(0, n) =~= blocks);
        assert(call_targets(blocks).subrange(0, call_targets(blocks).len() as int) =~= call_targets(blocks));
    }
}

proof fn lemma_first_unowned_prefix(owners: Seq<(String, String)>, all: Seq<Seq<char>>, pre: Seq<Seq<char>>)
    requires
        pre.len() <= all.len(),
        all.subrange(0, pre.len() as int) == pre,
        first_unowned(owners, pre) is Some,
    ensures
        first_unowned(owners, all) == first_unowned(owners, pre),
    decreases all.len(),
{
    if pre.len() < all.len() {
        assert(all.drop_last().subrange(0, pre.len() as int) =~= pre);
        lemma_first_unowned_prefix(owners, all.drop_last(), pre);
    } else {
        assert(all =~= pre);
    }
}

fn index_of(v: &Vec<String>, x: &str) -> (r: Option<usize>)
    ensures
        match r {
            Some(i) => i < v@.len() && v@[i as int]@ == x@,
            None => !names_in(v@).contains(x@),
        },
{
    let mut i: usize = 0;
    while i < v.len()
        invariant
            i <= v@.len(),
            forall|j: int| 0 <= j < i ==> (#[trigger] v@[j])@ != x@,
        decreases v@.len() - i,
    {
        if str_eq(v[i].as_str(), x) {
            return Some(i);
        }
        i = i + 1;
    }
    None
}

/// The module call graph: for each module, in the order of `modules`, the
/// other modules that its functions call; and the module owning `entry`.
/// A function, a called function or the entry that no module owns is an
/// error, the first in order.
pub fn dependency_graph(
    functions: &Vec<(String, Function)>,
    owners: &Vec<(String, String)>,
    modules: &Vec<String>,
    entry: &str,
) -> (r: Result<(Vec<(String, Vec<String>)>, String), String>)
    requires
        distinct_names(modules@),
        owners_listed(owners@, calls(functions@), modules@),
    ensures
        match graph_refusal(owners@, functions@) {
            Some(m) => err_text(r) == Some(m),
            None => match owner_of(owners@, entry@) {
                None => err_text(r) == Some(unowned_entry(entry@)),
                Some(e) => r matches Ok(p) && p.1@ == e && p.0@.len() == modules@.len()
                    && forall|i: int| 0 <= i < modules@.len() ==> (#[trigger] p.0@[i]).0@ == modules@[i]@
                        && names_in(p.0@[i].1@) == callees(owners@, calls(functions@), modules@[i]@),
            },
        },
{
    let mut deps: Vec<Vec<String>> = Vec::new();
    let mut x: usize = 0;
    while x < modules.len()
        invariant
            x <= modules@.len(),
            deps@.len() == x,
            forall|y: int| 0 <= y < x ==> (#[trigger] deps@[y])@.len() == 0,
        decreases modules@.len() - x,
    {
        deps.push(Vec::new());
        x = x + 1;
    }
    proof {
        assert forall|y: int| 0 <= y < modules@.len() implies names_in((#[trigger] deps@[y])@) == callees(owners@, Seq::empty(), modules@[y]@) by {
            assert(names_in(deps@[y]@) =~= Set::empty());
            assert(callees(owners@, Seq::empty(), modules@[y]@) =~= Set::empty());
        }
        assert(functions@.subrange(0, 0) =~= Seq::<(String, Function)>::empty());
    }
    let mut i: usize = 0;
    while i < functions.len()
        invariant
            i <= functions@.len(),
            distinct_names(modules@),
            owners_listed(owners@, calls(functions@), modules@),
            deps@.len() == modules@.len(),
            graph_refusal(owners@, functions@.subrange(0, i as int)) is None,
            forall|y: int| 0 <= y < modules@.len() ==> names_in((#[trigger] deps@[y])@)
                == callees(owners@, calls(functions@.subrange(0, i as int)), modules@[y]@),
        decreases functions@.len() - i,
    {
        let ghost pre = functions@.subrange(0, i as int);
        let ghost next = functions@.subrange(0, i + 1);
        proof {
            assert(next.drop_last() =~= pre);
            assert(next.last() == functions@[i as int]);
            lemma_calls_prefix(functions@, i as int + 1);
        }
        let name = &functions[i].0;
        let blocks = &functions[i].1.blocks;
        let source = match get_entry(owners, name.as_str()) {
            Some(m) => m,
            None => {
                proof {
                    assert(graph_refusal(owners@, next) == Some(unowned_function(name@)));
                    lemma_refusal_prefix(owners@, functions@, i as int + 1);
                }
                return Err(concat("E_MODULE_OWNERSHIP: no module owns function ", name.as_str()));
            },
        };
        let ghost base = calls(pre);
        let mut b: usize = 0;
        proof {
            assert(blocks@.subrange(0, 0) =~= Seq::<(String, Block)>::empty());
            assert(calls_of(name@, call_targets(blocks@.subrange(0, 0))) =~= Seq::empty());
            assert(base + calls_of(name@, call_targets(blocks@.subrange(0, 0))) =~= base);
        }
        while b < blocks.len()
            invariant
                0 <= i < functions@.len(),
                b <= blocks@.len(),
                blocks@ == functions@[i as int].1.blocks@,
                name@ == functions@[i as int].0@,
                owner_of(owners@, name@) == Some(source@),
                distinct_names(modules@),
                owners_listed(owners@, calls(functions@), modules@),
                base == calls(functions@.subrange(0, i as int)),
                graph_refusal(owners@, functions@.subrange(0, i as int)) is None,
                calls(functions@.subrange(0, i + 1)) == base + calls_of(name@, call_targets(blocks@)),
                calls(functions@.subrange(0, i + 1)).len() <= calls(functions@).len(),
                forall|k: int| 0 <= k < calls(functions@.subrange(0, i + 1)).len() ==> calls(functions@.subrange(0, i + 1))[k] == #[trigger] calls(functions@)[k],
                deps@.len() == modules@.len(),
                first_unowned(owners@, call_targets(blocks@.subrange(0, b as int))) is None,
                forall|y: int| 0 <= y < modules@.len() ==> names_in((#[trigger] deps@[y])@)
                    == callees(owners@, base + calls_of(name@, call_targets(blocks@.subrange(0, b as int))), modules@[y]@),
            decreases blocks@.len() - b,
        {
            let ghost bpre = blocks@.subrange(0, b as int);
            let ghost bnext = blocks@.subrange(0, b + 1);
            proof {
                assert(bnext.drop_last() =~= bpre);
                assert(bnext.last() == blocks@[b as int]);
                lemma_targets_prefix(blocks@, b as int + 1);
            }
            match &blocks[b].1.terminator {
                Terminator::Call { function: target, .. } => {
                    let tm = match get_entry(owners, target.as_str()) {
                        Some(m) => m,
                        None => {
                            proof {
                                assert(call_targets(bnext) == call_targets(bpre).push(target@));
                                assert(first_unowned(owners@, call_targets(bnext)) == Some(target@)) by {
                                    assert(call_targets(bnext).drop_last() =~= call_targets(bpre));
                                }
                                lemma_first_unowned_prefix(owners@, call_targets(blocks@), call_targets(bnext));
                                assert(function_refusal(owners@, functions@[i as int]) == Some(unowned_function(target@)));
                                assert(functions@.subrange(0, i + 1).drop_last() =~= functions@.subrange(0, i as int));
                                assert(functions@.subrange(0, i + 1).last() == functions@[i as int]);
                                assert(graph_refusal(owners@, functions@.subrange(0, i + 1)) == Some(unowned_function(target@)));
                                lemma_refusal_prefix(owners@, functions@, i as int + 1);
                            }
                            return Err(concat("E_MODULE_OWNERSHIP: no module owns function ", target.as_str()));
                        },
                    };
                    let ghost before = base + calls_of(name@, call_targets(bpre));
                    proof {
                        assert(call_targets(bnext) == call_targets(bpre).push(target@));
                        assert(first_unowned(owners@, call_targets(bnext)) is None) by {
                            assert(call_targets(bnext).drop_last() =~= call_targets(bpre));
                        }
                        assert(base + calls_of(name@, call_targets(bnext)) =~= before.push((name@, target@)));
                    }
                    if !str_eq(source.as_str(), tm.as_str()) {
                        let pos = match index_of(modules, source.as_str()) {
                            Some(p) => p,
                            None => {
                                proof {
                                    let tb = call_targets(blocks@);
                                    let j = call_targets(bpre).len() as int;
                                    let k = base.len() + j;
                                    assert(tb.subrange(0, call_targets(bnext).len() as int) == call_targets(bnext));
                                    assert(call_targets(bnext)[j] == target@);
                                    assert(tb[j] == target@) by {
                                        assert(tb.subrange(0, call_targets(bnext).len() as int)[j] == tb[j]);
                                    }
                                    assert(calls_of(name@, tb)[j] == (name@, target@));
                                    assert(calls(functions@.subrange(0, i + 1))[k] == (name@, target@));
                                    assert(calls(functions@)[k] == (name@, target@));
                                    assert(names_in(modules@).contains(source@));
                                }
                                vstd::pervasive::unreached()
                            },
                        };
                        let mut d = deps.remove(pos);
                        crate::assoc::add_name(&mut d, tm.clone());
                        deps.insert(pos, d);
                        proof {
                            assert forall|y: int| 0 <= y < modules@.len() implies names_in((#[trigger] deps@[y])@)
                                == callees(owners@, base + calls_of(name@, call_targets(bnext)), modules@[y]@) by {
                                lemma_callees_push(owners@, before, (name@, target@), modules@[y]@);
                                if y != pos {
                                    assert(modules@[y]@ != modules@[pos as int]@);
                                }
                            }
                        }
                    } else {
                        proof {
                            assert forall|y: int| 0 <= y < modules@.len() implies names_in((#[trigger] deps@[y])@)
                                == callees(owners@, base + calls_of(name@, call_targets(bnext)), modules@[y]@) by {
                                lemma_callees_push(owners@, before, (name@, target@), modules@[y]@);
                            }
                        }
                    }
                },
                _ => {
                    proof {
                        assert(call_targets(bnext) == call_targets(bpre));
                        assert(first_unowned(owners@, call_targets(bnext)) is None);
                    }
                },
            }
            b = b + 1;
        }
        proof {
            assert(blocks@.subrange(0, blocks@.len() as int) =~= blocks@);
            assert(graph_refusal(owners@, next) is None);
        }
        i = i + 1;
    }
    proof {
        assert(functions@.subrange(0, functions@.len() as int) =~= functions@);
    }
    let e = match get_entry(owners, entry) {
        Some(m) => m.clone(),
        None => {
            return Err(concat("E_MODULE_OWNERSHIP: no module owns entry ", entry));
        },
    };
    let mut graph: Vec<(String, Vec<String>)> = Vec::new();
    let mut y: usize = 0;
    let ghost full = deps@;
    while y < modules.len()
        invariant
            y <= modules@.len(),
            deps@.len() == modules@.len() - y,
            full.len() == modules@.len(),
            forall|z: int| 0 <= z < deps@.len() ==> #[trigger] deps@[z] == full[z + y],
            graph@.len() == y,
            forall|z: int| 0 <= z < y ==> (#[trigger] graph@[z]).0@ == modules@[z]@ && graph@[z].1 == full[z],
        decreases modules@.len() - y,
    {
        let ghost rest = deps@;
        let d = deps.remove(0);
        assert(d == full[y as int]);
        graph.push((modules[y].clone(), d));
        y = y + 1;
        proof {
            assert forall|z: int| 0 <= z < deps@.len() implies #[trigger] deps@[z] == full[z + y] by {
                assert(deps@[z] == rest[z + 1]);
            }
        }
    }
    Ok((graph, e))
}

/// The modules that module `m` depends on in `graph`, whose first entry of
/// a name is the one that counts.
pub open spec fn successors(graph: Seq<(String, Vec<String>)>, m: Seq<char>) -> Seq<String> {
    match assoc(graph, m) {
        Some(v) => v@,
        None => Seq::empty(),
    }
}

/// Step `i` of walk `w` follows an edge of `graph`.
pub open spec fn step(graph: Seq<(String, Vec<String>)>, w: Seq<Seq<char>>, i: int) -> bool {
    names_in(successors(graph, w[i])).contains(w[i + 1])
}

/// `w` walks along the edges of `graph` from `start`.
pub open spec fn is_walk(graph: Seq<(String, Vec<String>)>, start: Seq<char>, w: Seq<Seq<char>>) -> bool {
    &&& w.len() >= 1
    &&& w[0] == start
    &&& forall|i: int| 0 <= i < w.len() - 1 ==> #[trigger] step(graph, w, i)
}

/// The modules of a walk joined by arrows.
pub open spec fn walk_text(w: Seq<Seq<char>>) -> Seq<char>
    decreases w.len(),
{
    if w.len() == 0 {
        Seq::empty()
    } else if w.len() == 1 {
        w[0]
    } else {
        walk_text(w.drop_last()) + " -> "@ + w.last()
    }
}

/// Some walk from `start` ends at `m`.
pub open spec fn reachable(graph: Seq<(String, Vec<String>)>, start: Seq<char>, m: Seq<char>) -> bool {
    exists|w: Seq<Seq<char>>| #[trigger] is_walk(graph, start, w) && w.last() == m
}

/// No two entries share a name.
pub open spec fn keys_distinct(p: Seq<(String, String)>) -> bool {
    forall|a: int, b: int| 0 <= a < b < p.len() ==> (#[trigger] p[a]).0@ != (#[trigger] p[b]).0@
}

/// Every name listed in the graph's edges.
spec fn flat(g: Seq<(String, Vec<String>)>) -> Seq<Seq<char>>
    decreases g.len(),
{
    if g.len() == 0 {
        Seq::empty()
    } else {
        g[0].1@.map_values(|s: String| s@) + flat(g.drop_first())
    }
}

proof fn lemma_flat_contains(g: Seq<(String, Vec<String>)>, m: Seq<char>, j: int)
    requires
        0 <= j < successors(g, m).len(),
    ensures
        flat(g).contains(successors(g, m)[j]@),
    decreases g.len(),
{
    let s = g[0].1@.map_values(|x: String| x@);
    if g[0].0@ == m {
        assert(flat(g)[j] == s[j]);
    } else {
        lemma_flat_contains(g.drop_first(), m, j);
        let k = choose|k: int| 0 <= k < flat(g.drop_first()).len() && flat(g.drop_first())[k] == successors(g, m)[j]@;
        assert(flat(g)[s.len() + k] == flat(g.drop_first())[k]);
    }
}

pub proof fn lemma_room(keys: Seq<Seq<char>>, t: Seq<char>, pool: Seq<Seq<char>>)
    requires
        keys.no_duplicates(),
        !keys.contains(t),
        forall|i: int| 0 <= i < keys.len() ==> pool.contains(#[trigger] keys[i]),
        pool.contains(t),
    ensures
        keys.len() + 1 <= pool.len(),
{
    broadcast use vstd::seq_lib::seq_to_set_is_finite;
    let k2 = keys.push(t);
    assert(k2.no_duplicates()) by {
        assert forall|a: int, b: int| 0 <= a < k2.len() && 0 <= b < k2.len() && a != b implies k2[a] != k2[b] by {
            if a < keys.len() && b < keys.len() {
                assert(k2[a] == keys[a] && k2[b] == keys[b]);
            } else if a < keys.len() {
                assert(k2[a] == keys[a]);
            } else {
                assert(k2[b] == keys[b]);
            }
        }
    }
    k2.unique_seq_to_set();
    assert(k2.to_set().subset_of(pool.to_set())) by {
        assert forall|x: Seq<char>| k2.to_set().contains(x) implies pool.to_set().contains(x) by {
            let i = choose|i: int| 0 <= i < k2.len() && k2[i] == x;
            if i < keys.len() {
                assert(pool.contains(keys[i]));
            }
        }
    }
    vstd::set_lib::lemma_len_subset(k2.to_set(), pool.to_set());
    pool.lemma_cardinality_of_set();
}

proof fn lemma_walk_push(graph: Seq<(String, Vec<String>)>, start: Seq<char>, w: Seq<Seq<char>>, t: Seq<char>)
    requires
        is_walk(graph, start, w),
        names_in(successors(graph, w.last())).contains(t),
    ensures
        is_walk(graph, start, w.push(t)),
        walk_text(w.push(t)) == walk_text(w) + " -> "@ + t,
{
    let n = w.push(t);
    assert forall|i: int| 0 <= i < n.len() - 1 implies #[trigger] step(graph, n, i) by {
        if i < w.len() - 1 {
            assert(step(graph, w, i));
            assert(n[i] == w[i] && n[i + 1] == w[i + 1]);
        } else {
            assert(n[i] == w.last() && n[i + 1] == t);
        }
    }
    assert(n.drop_last() =~= w);
}

proof fn lemma_walk_reaches(graph: Seq<(String, Vec<String>)>, start: Seq<char>, r: Seq<(String, String)>, w: Seq<Seq<char>>)
    requires
        assoc_keys(r).contains(start),
        forall|i: int, j: int| 0 <= i < r.len() && 0 <= j < successors(graph, r[i].0@).len()
            ==> assoc_keys(r).contains((#[trigger] successors(graph, r[i].0@)[j])@),
        is_walk(graph, start, w),
    ensures
        assoc_keys(r).contains(w.last()),
    decreases w.len(),
{
    if w.len() > 1 {
        let p = w.drop_last();
        assert forall|i: int| 0 <= i < p.len() - 1 implies #[trigger] step(graph, p, i) by {
            assert(step(graph, w, i));
        }
        lemma_walk_reaches(graph, start, r, p);
        let i = choose|i: int| 0 <= i < r.len() && (#[trigger] r[i]).0@ == p.last();
        assert(step(graph, w, w.len() - 2));
        assert(w[w.len() - 2] == p.last());
        let j = choose|j: int| 0 <= j < successors(graph, w[w.len() - 2]).len() && (#[trigger] successors(graph, w[w.len() - 2])[j])@ == w.last();
        assert(successors(graph, r[i].0@)[j]@ == w.last());
    }
}

/// `r` gives, for each module that `start` reaches in `graph` and for no
/// other, once, a walk from `start` to it written with arrows; `start`
/// comes first, as itself.
pub open spec fn reach_paths(graph: Seq<(String, Vec<String>)>, start: Seq<char>, r: Seq<(String, String)>) -> bool {
    &&& r.len() >= 1
    &&& r[0].0@ == start
    &&& r[0].1@ == start
    &&& keys_distinct(r)
    &&& forall|i: int| 0 <= i < r.len() ==> exists|w: Seq<Seq<char>>| is_walk(graph, start, w)
        && w.last() == (#[trigger] r[i]).0@ && r[i].1@ == walk_text(w) && fewest_steps(graph, start, w)
    &&& forall|m: Seq<char>| reachable(graph, start, m) <==> #[trigger] assoc_keys(r).contains(m)
}

/// No walk from `start` reaches the end of `w` in fewer steps.
pub open spec fn fewest_steps(graph: Seq<(String, Vec<String>)>, start: Seq<char>, w: Seq<Seq<char>>) -> bool {
    forall|v: Seq<Seq<char>>| #[trigger] is_walk(graph, start, v) && v.last() == w.last() ==> w.len() <= v.len()
}

/// Every walk from `start` ends at a listed module whose recorded walk is no
/// longer, once every listed module's successors are listed no more than one
/// step further.
proof fn lemma_walk_no_shorter(
    graph: Seq<(String, Vec<String>)>,
    start: Seq<char>,
    paths: Seq<(String, String)>,
    walks: Seq<Seq<Seq<char>>>,
    v: Seq<Seq<char>>,
)
    requires
        paths.len() >= 1,
        walks.len() == paths.len(),
        paths[0].0@ == start,
        walks[0].len() == 1,
        forall|i: int, k: int| 0 <= i < paths.len() && 0 <= k < successors(graph, paths[i].0@).len()
            ==> exists|q: int| 0 <= q < paths.len() && paths[q].0@ == (#[trigger] successors(graph, paths[i].0@)[k])@
                && walks[q].len() <= walks[i].len() + 1,
        is_walk(graph, start, v),
    ensures
        exists|q: int| 0 <= q < paths.len() && paths[q].0@ == v.last() && walks[q].len() <= v.len(),
    decreases v.len(),
{
    if v.len() == 1 {
        assert(paths[0].0@ == v.last());
    } else {
        let u = v.drop_last();
        assert forall|i: int| 0 <= i < u.len() - 1 implies #[trigger] step(graph, u, i) by {
            assert(step(graph, v, i));
        }
        lemma_walk_no_shorter(graph, start, paths, walks, u);
        let q = choose|q: int| 0 <= q < paths.len() && paths[q].0@ == u.last() && walks[q].len() <= u.len();
        assert(step(graph, v, v.len() - 2));
        assert(v[v.len() - 2] == u.last());
        let k = choose|k: int| 0 <= k < successors(graph, v[v.len() - 2]).len() && (#[trigger] successors(graph, v[v.len() - 2])[k])@ == v.last();
        assert(successors(graph, paths[q].0@)[k]@ == v.last());
    }
}

/// `x` is the first place at which `b` stands among the successors of `a`.
pub open spec fn first_successor_at(graph: Seq<(String, Vec<String>)>, a: Seq<char>, x: int, b: Seq<char>) -> bool {
    &&& 0 <= x < successors(graph, a).len()
    &&& successors(graph, a)[x]@ == b
    &&& forall|y: int| 0 <= y < x ==> (#[trigger] successors(graph, a)[y])@ != b
}

/// `r` is in breadth-first order: each entry after the first was found from
/// entry `par[i]`, the first entry of `r` with an edge to it, at the first
/// place `pos[i]` where it stands among that entry's successors, and its
/// path is that entry's path with ` -> ` and its own name added; entries
/// found from earlier entries come first, and those found from one entry
/// come in the order of its successors.
pub open spec fn bfs_tree(graph: Seq<(String, Vec<String>)>, r: Seq<(String, String)>, par: Seq<int>, pos: Seq<int>) -> bool {
    &&& par.len() == r.len()
    &&& pos.len() == r.len()
    &&& forall|i: int| 0 < i < r.len() ==> {
        &&& 0 <= #[trigger] par[i] < i
        &&& first_successor_at(graph, r[par[i]].0@, pos[i], r[i].0@)
        &&& r[i].1@ == r[par[i]].1@ + " -> "@ + r[i].0@
        &&& forall|j: int| 0 <= j < par[i] ==> !names_in(#[trigger] successors(graph, r[j].0@)).contains(r[i].0@)
    }
    &&& forall|i: int, k: int| 0 < i < k < r.len() ==> #[trigger] par[i] < #[trigger] par[k] || (par[i] == par[k] && pos[i] < pos[k])
}

proof fn lemma_bfs_push(
    graph: Seq<(String, Vec<String>)>,
    r: Seq<(String, String)>,
    par: Seq<int>,
    pos: Seq<int>,
    c: int,
    x: int,
    e: (String, String),
)
    requires
        bfs_tree(graph, r, par, pos),
        0 <= c < r.len(),
        forall|i: int| 0 < i < r.len() ==> #[trigger] par[i] < c || (par[i] == c && pos[i] < x),
        first_successor_at(graph, r[c].0@, x, e.0@),
        e.1@ == r[c].1@ + " -> "@ + e.0@,
        forall|j: int| 0 <= j < c ==> !names_in(#[trigger] successors(graph, r[j].0@)).contains(e.0@),
    ensures
        bfs_tree(graph, r.push(e), par.push(c), pos.push(x)),
{
    let r2 = r.push(e);
    let p2 = par.push(c);
    let q2 = pos.push(x);
    let n = r.len() as int;
    assert forall|i: int| 0 < i < r2.len() implies {
        &&& 0 <= #[trigger] p2[i] < i
        &&& first_successor_at(graph, r2[p2[i]].0@, q2[i], r2[i].0@)
        &&& r2[i].1@ == r2[p2[i]].1@ + " -> "@ + r2[i].0@
        &&& forall|j: int| 0 <= j < p2[i] ==> !names_in(#[trigger] successors(graph, r2[j].0@)).contains(r2[i].0@)
    } by {
        if i < n {
            assert(p2[i] == par[i] && q2[i] == pos[i] && r2[i] == r[i] && r2[par[i]] == r[par[i]]);
            assert forall|j: int| 0 <= j < p2[i] implies !names_in(#[trigger] successors(graph, r2[j].0@)).contains(r2[i].0@) by {
                assert(r2[j] == r[j]);
                assert(!names_in(successors(graph, r[j].0@)).contains(r[i].0@));
            }
        } else {
            assert(p2[i] == c && q2[i] == x && r2[i] == e && r2[c] == r[c]);
            assert forall|j: int| 0 <= j < p2[i] implies !names_in(#[trigger] successors(graph, r2[j].0@)).contains(r2[i].0@) by {
                assert(r2[j] == r[j]);
                assert(!names_in(successors(graph, r[j].0@)).contains(e.0@));
            }
        }
    }
    assert forall|i: int, k: int| 0 < i < k < r2.len() implies #[trigger] p2[i] < #[trigger] p2[k] || (p2[i] == p2[k] && q2[i] < q2[k]) by {
        assert(p2[i] == par[i] && q2[i] == pos[i]);
        if k < n {
            assert(p2[k] == par[k] && q2[k] == pos[k]);
        } else {
            assert(par[i] < c || (par[i] == c && pos[i] < x));
        }
    }
}

/// For every module that `start` reaches in `graph`, the path by which a
/// breadth-first search first reaches it, written `a -> b -> c`; `start`
/// itself comes first, with the path `start`. The search takes the modules
/// in the order in which it found them, and the successors of each in the
/// order that `graph` lists them.
pub fn module_paths(graph: &Vec<(String, Vec<String>)>, start: &str) -> (r: Vec<(String, String)>)
    ensures
        reach_paths(graph@, start@, r@),
        exists|par: Seq<int>, pos: Seq<int>| bfs_tree(graph@, r@, par, pos),
{
    let mut paths: Vec<(String, String)> = Vec::new();
    paths.push((owned(start), owned(start)));
    let ghost mut walks: Seq<Seq<Seq<char>>> = seq![seq![start@]];
    let ghost mut par: Seq<int> = seq![0int];
    let ghost mut pos: Seq<int> = seq![0int];
    let ghost pool = seq![start@] + flat(graph@);
    proof {
        assert(walk_text(seq![start@]) == start@);
        assert(pool[0] == start@);
    }
    let mut cursor: usize = 0;
    while cursor < paths.len()
        invariant
            1 <= paths@.len() <= pool.len(),
            cursor <= paths@.len(),
            pool == seq![start@] + flat(graph@),
            paths@[0].0@ == start@,
            paths@[0].1@ == start@,
            keys_distinct(paths@),
            walks.len() == paths@.len(),
            forall|i: int| 0 <= i < paths@.len() ==> is_walk(graph@, start@, #[trigger] walks[i])
                && walks[i].last() == paths@[i].0@ && paths@[i].1@ == walk_text(walks[i]),
            forall|i: int| 0 <= i < paths@.len() ==> pool.contains((#[trigger] paths@[i]).0@),
            forall|i: int, j: int| 0 <= i < cursor && 0 <= j < successors(graph@, paths@[i].0@).len()
                ==> assoc_keys(paths@).contains((#[trigger] successors(graph@, paths@[i].0@)[j])@),
            walks[0] == seq![start@],
            forall|a: int, b: int| 0 <= a < b < walks.len() ==> (#[trigger] walks[a]).len() <= (#[trigger] walks[b]).len(),
            cursor < paths@.len() ==> walks[paths@.len() - 1].len() <= walks[cursor as int].len() + 1,
            forall|i: int, j: int| 0 <= i < cursor && 0 <= j < successors(graph@, paths@[i].0@).len()
                ==> exists|q: int| 0 <= q < paths@.len() && paths@[q].0@ == (#[trigger] successors(graph@, paths@[i].0@)[j])@
                    && walks[q].len() <= walks[i].len() + 1,
            bfs_tree(graph@, paths@, par, pos),
            forall|i: int| 0 < i < paths@.len() ==> #[trigger] par[i] < cursor,
        decreases pool.len() - cursor,
    {
        let module = paths[cursor].0.clone();
        let prefix = paths[cursor].1.clone();
        let ghost w0 = walks[cursor as int];
        let ghost c0 = cursor as int;
        cursor = cursor + 1;
        match get_entry(graph, module.as_str()) {
            Some(targets) => {
                let mut j: usize = 0;
                while j < targets.len()
                    invariant
                        1 <= paths@.len() <= pool.len(),
                        0 <= c0,
                        c0 + 1 == cursor,
                        cursor <= paths@.len(),
                        pool == seq![start@] + flat(graph@),
                        paths@[0].0@ == start@,
                        paths@[0].1@ == start@,
                        keys_distinct(paths@),
                        walks.len() == paths@.len(),
                        forall|i: int| 0 <= i < paths@.len() ==> is_walk(graph@, start@, #[trigger] walks[i])
                            && walks[i].last() == paths@[i].0@ && paths@[i].1@ == walk_text(walks[i]),
                        forall|i: int| 0 <= i < paths@.len() ==> pool.contains((#[trigger] paths@[i]).0@),
                        forall|i: int, k: int| 0 <= i < c0 && 0 <= k < successors(graph@, paths@[i].0@).len()
                            ==> assoc_keys(paths@).contains((#[trigger] successors(graph@, paths@[i].0@)[k])@),
                        paths@[c0].0@ == module@,
                        is_walk(graph@, start@, w0),
                        w0.last() == module@,
                        prefix@ == walk_text(w0),
                        j <= targets@.len(),
                        targets@ == successors(graph@, module@),
                        forall|k: int| 0 <= k < j ==> assoc_keys(paths@).contains((#[trigger] targets@[k])@),
                        walks[c0] == w0,
                        walks[0] == seq![start@],
                        forall|a: int, b: int| 0 <= a < b < walks.len() ==> (#[trigger] walks[a]).len() <= (#[trigger] walks[b]).len(),
                        walks[paths@.len() - 1].len() <= w0.len() + 1,
                        forall|i: int, k: int| 0 <= i < c0 && 0 <= k < successors(graph@, paths@[i].0@).len()
                            ==> exists|q: int| 0 <= q < paths@.len() && paths@[q].0@ == (#[trigger] successors(graph@, paths@[i].0@)[k])@
                                && walks[q].len() <= walks[i].len() + 1,
                        forall|k: int| 0 <= k < j ==> exists|q: int| 0 <= q < paths@.len() && paths@[q].0@ == (#[trigger] targets@[k])@
                            && walks[q].len() <= w0.len() + 1,
                        bfs_tree(graph@, paths@, par, pos),
                        forall|i: int| 0 < i < paths@.len() ==> #[trigger] par[i] < c0 || (par[i] == c0 && pos[i] < j),
                    decreases targets@.len() - j,
                {
                    let t = &targets[j];
                    if position_of(&paths, t.as_str()).is_none() {
                        proof {
                            let keys = paths@.map_values(|p: (String, String)| p.0@);
                            assert(keys.no_duplicates()) by {
                                assert forall|a: int, b: int| 0 <= a < keys.len() && 0 <= b < keys.len() && a != b implies keys[a] != keys[b] by {
                                    if a < b {
                                        assert(paths@[a].0@ != paths@[b].0@);
                                    } else {
                                        assert(paths@[b].0@ != paths@[a].0@);
                                    }
                                }
                            }
                            assert(!keys.contains(t@)) by {
                                if keys.contains(t@) {
                                    let i = choose|i: int| 0 <= i < keys.len() && keys[i] == t@;
                                    assert(paths@[i].0@ == t@);
                                }
                            }
                            assert forall|i: int| 0 <= i < keys.len() implies pool.contains(#[trigger] keys[i]) by {
                                assert(pool.contains(paths@[i].0@));
                            }
                            lemma_flat_contains(graph@, module@, j as int);
                            let fk = choose|fk: int| 0 <= fk < flat(graph@).len() && flat(graph@)[fk] == t@;
                            assert(pool[fk + 1] == t@);
                            lemma_room(keys, t@, pool);
                            assert(names_in(successors(graph@, w0.last())).contains(t@)) by {
                                assert(successors(graph@, w0.last())[j as int]@ == t@);
                            }
                            lemma_walk_push(graph@, start@, w0, t@);
                        }
                        let text = concat3(prefix.as_str(), " -> ", t.as_str());
                        let ghost before = paths@;
                        let entry = (t.clone(), text);
                        proof {
                            assert(paths@[c0].1@ == prefix@);
                            assert forall|y: int| 0 <= y < j implies (#[trigger] successors(graph@, paths@[c0].0@)[y])@ != t@ by {
                                assert(assoc_keys(paths@).contains(targets@[y]@));
                            }
                            assert forall|jj: int| 0 <= jj < c0 implies !names_in(#[trigger] successors(graph@, paths@[jj].0@)).contains(t@) by {
                                if names_in(successors(graph@, paths@[jj].0@)).contains(t@) {
                                    let k = choose|k: int| 0 <= k < successors(graph@, paths@[jj].0@).len() && (#[trigger] successors(graph@, paths@[jj].0@)[k])@ == t@;
                                    assert(assoc_keys(paths@).contains(successors(graph@, paths@[jj].0@)[k]@));
                                }
                            }
                            lemma_bfs_push(graph@, paths@, par, pos, c0, j as int, entry);
                        }
                        paths.push(entry);
                        proof {
                            par = par.push(c0);
                            pos = pos.push(j as int);
                            assert forall|i: int| 0 < i < paths@.len() implies #[trigger] par[i] < c0 || (par[i] == c0 && pos[i] < j + 1) by {
                                if i < before.len() {
                                    assert(par[i] == par.drop_last()[i] && pos[i] == pos.drop_last()[i]);
                                }
                            }
                            walks = walks.push(w0.push(t@));
                            assert(paths@[c0] == before[c0]);
                            assert(pool.contains(t@));
                            assert forall|a: int, b: int| 0 <= a < b < paths@.len() implies (#[trigger] paths@[a]).0@ != (#[trigger] paths@[b]).0@ by {
                                if b == before.len() {
                                    assert(before[a] == paths@[a]);
                                } else {
                                    assert(before[a] == paths@[a] && before[b] == paths@[b]);
                                }
                            }
                            assert forall|q: Seq<char>| assoc_keys(before).contains(q) implies assoc_keys(paths@).contains(q) by {
                                let i = choose|i: int| 0 <= i < before.len() && (#[trigger] before[i]).0@ == q;
                                assert(paths@[i] == before[i]);
                            }
                            assert(paths@[before.len() as int].0@ == t@);
                            assert forall|i: int| 0 <= i < paths@.len() implies is_walk(graph@, start@, #[trigger] walks[i])
                                && walks[i].last() == paths@[i].0@ && paths@[i].1@ == walk_text(walks[i]) by {
                                if i < before.len() {
                                    assert(paths@[i] == before[i]);
                                }
                            }
                            assert forall|i: int| 0 <= i < paths@.len() implies pool.contains((#[trigger] paths@[i]).0@) by {
                                if i < before.len() {
                                    assert(paths@[i] == before[i]);
                                }
                            }
                            let nq = before.len() as int;
                            assert(walks[nq] == w0.push(t@));
                            assert forall|a: int, b: int| 0 <= a < b < walks.len() implies (#[trigger] walks[a]).len() <= (#[trigger] walks[b]).len() by {
                                if b == nq {
                                    if a < nq - 1 {
                                        assert(walks.drop_last()[a].len() <= walks.drop_last()[nq - 1].len());
                                    }
                                    assert(walks[a] == walks.drop_last()[a]);
                                } else {
                                    assert(walks[a] == walks.drop_last()[a] && walks[b] == walks.drop_last()[b]);
                                }
                            }
                            assert forall|i: int, k: int| 0 <= i < c0 && 0 <= k < successors(graph@, paths@[i].0@).len()
                                implies exists|q: int| 0 <= q < paths@.len() && paths@[q].0@ == (#[trigger] successors(graph@, paths@[i].0@)[k])@
                                    && walks[q].len() <= walks[i].len() + 1 by {
                                assert(paths@[i] == before[i]);
                                let q = choose|q: int| 0 <= q < before.len() && before[q].0@ == successors(graph@, before[i].0@)[k]@
                                    && walks.drop_last()[q].len() <= walks.drop_last()[i].len() + 1;
                                assert(paths@[q] == before[q]);
                                assert(walks[q] == walks.drop_last()[q]);
                            }
                            assert forall|k: int| 0 <= k < j + 1 implies exists|q: int| 0 <= q < paths@.len() && paths@[q].0@ == (#[trigger] targets@[k])@
                                && walks[q].len() <= w0.len() + 1 by {
                                if k < j {
                                    let q = choose|q: int| 0 <= q < before.len() && before[q].0@ == targets@[k]@
                                        && walks.drop_last()[q].len() <= w0.len() + 1;
                                    assert(paths@[q] == before[q]);
                                    assert(walks[q] == walks.drop_last()[q]);
                                } else {
                                    assert(paths@[nq].0@ == targets@[k]@);
                                }
                            }
                        }
                    } else {
                        proof {
                            assert(assoc_keys(paths@).contains(t@)) by {
                                crate::assoc::lemma_assoc_some(paths@, t@);
                            }
                            let q = choose|q: int| 0 <= q < paths@.len() && (#[trigger] paths@[q]).0@ == t@;
                            if q < paths@.len() - 1 {
                                assert(walks[q].len() <= walks[paths@.len() - 1].len());
                            }
                            assert(walks[q].len() <= w0.len() + 1);
                        }
                    }
                    j = j + 1;
                }
                proof {
                    assert forall|i: int, k: int| 0 <= i < cursor && 0 <= k < successors(graph@, paths@[i].0@).len()
                        implies assoc_keys(paths@).contains((#[trigger] successors(graph@, paths@[i].0@)[k])@) by {
                        if i == c0 {
                            assert(targets@[k] == successors(graph@, paths@[i].0@)[k]);
                        }
                    }
                    assert forall|i: int, k: int| 0 <= i < cursor && 0 <= k < successors(graph@, paths@[i].0@).len()
                        implies exists|q: int| 0 <= q < paths@.len() && paths@[q].0@ == (#[trigger] successors(graph@, paths@[i].0@)[k])@
                            && walks[q].len() <= walks[i].len() + 1 by {
                        if i == c0 {
                            assert(targets@[k] == successors(graph@, paths@[i].0@)[k]);
                        }
                    }
                    if cursor < paths@.len() {
                        assert(walks[c0].len() <= walks[cursor as int].len());
                    }
                }
            },
            None => {
                proof {
                    assert(successors(graph@, paths@[c0].0@).len() == 0);
                    if cursor < paths@.len() {
                        assert(walks[c0].len() <= walks[cursor as int].len());
                    }
                }
            },
        }
    }
    proof {
        assert(assoc_keys(paths@).contains(start@)) by {
            assert(paths@[0].0@ == start@);
        }
        assert forall|m: Seq<char>| reachable(graph@, start@, m) <==> #[trigger] assoc_keys(paths@).contains(m) by {
            if reachable(graph@, start@, m) {
                let w = choose|w: Seq<Seq<char>>| #[trigger] is_walk(graph@, start@, w) && w.last() == m;
                lemma_walk_reaches(graph@, start@, paths@, w);
            }
            if assoc_keys(paths@).contains(m) {
                let i = choose|i: int| 0 <= i < paths@.len() && (#[trigger] paths@[i]).0@ == m;
                assert(is_walk(graph@, start@, walks[i]));
            }
        }
        assert forall|i: int| 0 <= i < paths@.len() implies exists|w: Seq<Seq<char>>| is_walk(graph@, start@, w)
            && w.last() == (#[trigger] paths@[i]).0@ && paths@[i].1@ == walk_text(w) && fewest_steps(graph@, start@, w) by {
            assert(is_walk(graph@, start@, walks[i]));
            assert forall|v: Seq<Seq<char>>| #[trigger] is_walk(graph@, start@, v) && v.last() == walks[i].last() implies walks[i].len() <= v.len() by {
                lemma_walk_no_shorter(graph@, start@, paths@, walks, v);
                let q = choose|q: int| 0 <= q < paths@.len() && paths@[q].0@ == v.last() && walks[q].len() <= v.len();
                if q != i {
                    if q < i {
                        assert(paths@[q].0@ != paths@[i].0@);
                    } else {
                        assert(paths@[i].0@ != paths@[q].0@);
                    }
                }
            }
        }
    }
    paths
}

/// A list of string pairs, as text.
pub open spec fn pair_views(v: Seq<(String, String)>) -> Seq<(Seq<char>, Seq<char>)> {
    v.map_values(|p: (String, String)| (p.0@, p.1@))
}

/// The assets that `nodes` show, in order.
pub open spec fn node_assets(nodes: Seq<Node>) -> Seq<Seq<char>>
    decreases nodes.len(),
{
    if nodes.len() == 0 {
        Seq::empty()
    } else {
        let rest = node_assets(nodes.drop_last());
        match nodes.last().asset {
            Some(a) => rest.push(a@),
            None => rest,
        }
    }
}

/// The audio assets that `effects` play, in order.
pub open spec fn audio_assets(effects: Seq<EffectDef>) -> Seq<Seq<char>>
    decreases effects.len(),
{
    if effects.len() == 0 {
        Seq::empty()
    } else {
        let rest = audio_assets(effects.drop_last());
        match effects.last().effect {
            Effect::Audio { asset, .. } => rest.push(asset@),
            _ => rest,
        }
    }
}

/// Each asset paired with `label`.
pub open spec fn labeled(assets: Seq<Seq<char>>, label: Seq<char>) -> Seq<(Seq<char>, Seq<char>)> {
    assets.map_values(|a: Seq<char>| (a, label))
}

/// The consumer label of module `m`.
pub open spec fn module_label(m: Seq<char>) -> Seq<char> {
    "module:"@ + m
}

/// The assets of owned scenes, labelled with the owning module.
pub open spec fn scene_uses(scenes: Seq<(String, Vec<Node>)>, owners: Seq<(String, String)>) -> Seq<(Seq<char>, Seq<char>)>
    decreases scenes.len(),
{
    if scenes.len() == 0 {
        Seq::empty()
    } else {
        scene_uses(scenes.drop_last(), owners) + match owner_of(owners, scenes.last().0@) {
            Some(m) => labeled(node_assets(scenes.last().1@), module_label(m)),
            None => Seq::empty(),
        }
    }
}

/// The audio assets of owned cues, labelled with the owning module.
pub open spec fn cue_uses(cues: Seq<(String, Cue)>, owners: Seq<(String, String)>) -> Seq<(Seq<char>, Seq<char>)>
    decreases cues.len(),
{
    if cues.len() == 0 {
        Seq::empty()
    } else {
        cue_uses(cues.drop_last(), owners) + match owner_of(owners, cues.last().0@) {
            Some(m) => labeled(audio_assets(cues.last().1.effects@), module_label(m)),
            None => Seq::empty(),
        }
    }
}

/// The nodes of the title scene: the named scene where it exists, else the
/// first scene.
pub open spec fn title_nodes(scenes: Seq<(String, Vec<Node>)>, title: Option<String>) -> Option<Seq<Node>> {
    let named = match title {
        Some(t) => match assoc(scenes, t@) {
            Some(n) => Some(n@),
            None => None,
        },
        None => None,
    };
    match named {
        Some(n) => Some(n),
        None => if scenes.len() > 0 { Some(scenes[0].1@) } else { None },
    }
}

/// The fonts of each locale plan, labelled with `prefix` and the locale.
pub open spec fn font_uses(plans: Seq<(String, LocaleFontPlan)>, prefix: Seq<char>) -> Seq<(Seq<char>, Seq<char>)>
    decreases plans.len(),
{
    if plans.len() == 0 {
        Seq::empty()
    } else {
        font_uses(plans.drop_last(), prefix) + labeled(string_views(plans.last().1.fonts@), prefix + plans.last().0@)
    }
}

/// Every use of an asset with its consumer: owned scenes and cues, the
/// title scene for the bootstrap, and the font plans of each locale.
pub open spec fn asset_uses(
    scenes: Seq<(String, Vec<Node>)>,
    cues: Seq<(String, Cue)>,
    title: Option<String>,
    config: LocaleConfig,
    scene_owners: Seq<(String, String)>,
    cue_owners: Seq<(String, String)>,
) -> Seq<(Seq<char>, Seq<char>)> {
    scene_uses(scenes, scene_owners) + cue_uses(cues, cue_owners) + match title_nodes(scenes, title) {
        Some(n) => labeled(node_assets(n), "bootstrap"@),
        None => Seq::empty(),
    } + font_uses(config.ui@, "locale:ui:"@) + font_uses(config.text@, "locale:text:"@)
}

/// The consumers of asset `a` among `uses`.
pub open spec fn consumers_of(uses: Seq<(Seq<char>, Seq<char>)>, a: Seq<char>) -> Set<Seq<char>> {
    Set::new(|l: Seq<char>| exists|i: int| 0 <= i < uses.len() && #[trigger] uses[i] == (a, l))
}

/// `a` has a use among `uses`.
pub open spec fn used(uses: Seq<(Seq<char>, Seq<char>)>, a: Seq<char>) -> bool {
    exists|i: int| 0 <= i < uses.len() && (#[trigger] uses[i]).0 == a
}

proof fn lemma_consumers_push(uses: Seq<(Seq<char>, Seq<char>)>, u: (Seq<char>, Seq<char>), a: Seq<char>)
    ensures
        consumers_of(uses.push(u), a) == if u.0 == a { consumers_of(uses, a).insert(u.1) } else { consumers_of(uses, a) },
        used(uses.push(u), a) == (used(uses, a) || u.0 == a),
{
    let n = uses.push(u);
    let expected = if u.0 == a { consumers_of(uses, a).insert(u.1) } else { consumers_of(uses, a) };
    assert forall|l: Seq<char>| consumers_of(n, a).contains(l) <==> expected.contains(l) by {
        if consumers_of(n, a).contains(l) {
            let i = choose|i: int| 0 <= i < n.len() && #[trigger] n[i] == (a, l);
            if i < uses.len() {
                assert(n[i] == uses[i]);
            }
        }
        if consumers_of(uses, a).contains(l) {
            let i = choose|i: int| 0 <= i < uses.len() && #[trigger] uses[i] == (a, l);
            assert(n[i] == uses[i]);
        }
        if u.0 == a && l == u.1 {
            assert(n[uses.len() as int] == (a, l));
        }
    }
    assert(consumers_of(n, a) =~= expected);
    if used(n, a) {
        let i = choose|i: int| 0 <= i < n.len() && (#[trigger] n[i]).0 == a;
        if i < uses.len() {
            assert(n[i] == uses[i]);
        }
    }
    if used(uses, a) {
        let i = choose|i: int| 0 <= i < uses.len() && (#[trigger] uses[i]).0 == a;
        assert(n[i] == uses[i]);
    }
    if u.0 == a {
        assert(n[uses.len() as int].0 == a);
    }
}

/// Groups uses by asset: each asset that has a use appears once, with the
/// set of its consumers.
pub fn group_uses(uses: &Vec<(String, String)>) -> (r: Vec<(String, Vec<String>)>)
    ensures
        forall|a: int, b: int| 0 <= a < b < r@.len() ==> (#[trigger] r@[a]).0@ != (#[trigger] r@[b]).0@,
        forall|x: int| 0 <= x < r@.len() ==> names_in((#[trigger] r@[x]).1@) == consumers_of(pair_views(uses@), r@[x].0@),
        forall|k: Seq<char>| #[trigger] assoc_keys(r@).contains(k) <==> used(pair_views(uses@), k),
{
    let ghost pv = pair_views(uses@);
    let mut keys: Vec<String> = Vec::new();
    let mut labels: Vec<Vec<String>> = Vec::new();
    let mut i: usize = 0;
    proof {
        assert(pv.subrange(0, 0) =~= Seq::<(Seq<char>, Seq<char>)>::empty());
    }
    while i < uses.len()
        invariant
            i <= uses@.len(),
            pv == pair_views(uses@),
            keys@.len() == labels@.len(),
            distinct_names(keys@),
            forall|x: int| 0 <= x < keys@.len() ==> names_in((#[trigger] labels@[x])@) == consumers_of(pv.subrange(0, i as int), keys@[x]@),
            forall|k: Seq<char>| #[trigger] names_in(keys@).contains(k) <==> used(pv.subrange(0, i as int), k),
        decreases uses@.len() - i,
    {
        let a = &uses[i].0;
        let l = &uses[i].1;
        let ghost pre = pv.subrange(0, i as int);
        proof {
            assert(pv.subrange(0, i + 1) =~= pre.push((a@, l@)));
            assert forall|k: Seq<char>| true implies consumers_of(pv.subrange(0, i + 1), k) == (if a@ == k { consumers_of(pre, k).insert(l@) } else { consumers_of(pre, k) })
                && used(pv.subrange(0, i + 1), k) == (used(pre, k) || a@ == k) by {
                lemma_consumers_push(pre, (a@, l@), k);
            }
        }
        match index_of(&keys, a.as_str()) {
            Some(p) => {
                let ghost lb = labels@;
                let mut v = labels.remove(p);
                let ghost v0 = v@;
                crate::assoc::add_name(&mut v, l.clone());
                let ghost v1 = v@;
                labels.insert(p, v);
                proof {
                    assert(names_in(v1) == names_in(v0).insert(l@));
                    assert forall|x: int| 0 <= x < keys@.len() implies names_in((#[trigger] labels@[x])@) == consumers_of(pv.subrange(0, i + 1), keys@[x]@) by {
                        lemma_consumers_push(pre, (a@, l@), keys@[x]@);
                        if x < p {
                            assert(labels@[x] == lb[x]);
                            assert(keys@[x]@ != keys@[p as int]@);
                        } else if x > p {
                            assert(labels@[x] == lb[x]);
                            assert(keys@[x]@ != keys@[p as int]@);
                        } else {
                            assert(labels@[x]@ == v1);
                            assert(lb[x]@ == v0);
                            assert(names_in(v0) == consumers_of(pre, a@));
                        }
                    }
                    assert forall|k: Seq<char>| #[trigger] names_in(keys@).contains(k) <==> used(pv.subrange(0, i + 1), k) by {
                        if k == a@ {
                            assert(keys@[p as int]@ == k);
                        }
                    }
                }
            },
            None => {
                let ghost kb = keys@;
                let ghost lb = labels@;
                keys.push(a.clone());
                let mut v: Vec<String> = Vec::new();
                v.push(l.clone());
                labels.push(v);
                proof {
                    assert(names_in(v@) =~= Set::empty().insert(l@)) by {
                        assert(v@[0] == *l);
                    }
                    assert forall|m: int, n: int| 0 <= m < n < keys@.len() implies (#[trigger] keys@[m])@ != (#[trigger] keys@[n])@ by {
                        if n == kb.len() {
                            assert(keys@[m] == kb[m]);
                            assert(names_in(kb).contains(kb[m]@));
                        } else {
                            assert(keys@[m] == kb[m] && keys@[n] == kb[n]);
                        }
                    }
                    assert forall|x: int| 0 <= x < keys@.len() implies names_in((#[trigger] labels@[x])@) == consumers_of(pv.subrange(0, i + 1), keys@[x]@) by {
                        if x < kb.len() {
                            assert(keys@[x] == kb[x] && labels@[x] == lb[x]);
                            assert(kb[x]@ != a@) by {
                                assert(names_in(kb).contains(kb[x]@));
                            }
                        } else {
                            assert(!used(pre, a@));
                            assert(consumers_of(pre, a@) =~= Set::empty()) by {
                                assert forall|q: Seq<char>| !consumers_of(pre, a@).contains(q) by {
                                    if consumers_of(pre, a@).contains(q) {
                                        let j = choose|j: int| 0 <= j < pre.len() && #[trigger] pre[j] == (a@, q);
                                        assert(pre[j].0 == a@);
                                    }
                                }
                            }
                        }
                    }
                    assert forall|k: Seq<char>| #[trigger] names_in(keys@).contains(k) <==> used(pv.subrange(0, i + 1), k) by {
                        if names_in(keys@).contains(k) {
                            let j = choose|j: int| 0 <= j < keys@.len() && (#[trigger] keys@[j])@ == k;
                            if j < kb.len() {
                                assert(keys@[j] == kb[j]);
                                assert(names_in(kb).contains(k));
                            }
                        }
                        if names_in(kb).contains(k) {
                            let j = choose|j: int| 0 <= j < kb.len() && (#[trigger] kb[j])@ == k;
                            assert(keys@[j] == kb[j]);
                        }
                        if k == a@ {
                            assert(keys@[kb.len() as int]@ == k);
                        }
                    }
                }
            },
        }
        i = i + 1;
    }
    proof {
        assert(pv.subrange(0, uses@.len() as int) =~= pv);
    }
    let mut r: Vec<(String, Vec<String>)> = Vec::new();
    let ghost fk = keys@;
    let ghost fl = labels@;
    let n = keys.len();
    let mut y: usize = 0;
    while y < n
        invariant
            n == fk.len(),
            fk.len() == fl.len(),
            y <= fk.len(),
            keys@.len() == fk.len() - y,
            labels@.len() == fl.len() - y,
            forall|z: int| 0 <= z < keys@.len() ==> #[trigger] keys@[z] == fk[z + y],
            forall|z: int| 0 <= z < labels@.len() ==> #[trigger] labels@[z] == fl[z + y],
            r@.len() == y,
            forall|z: int| 0 <= z < y ==> (#[trigger] r@[z]).0 == fk[z] && r@[z].1 == fl[z],
        decreases n - y,
    {
        let ghost kr = keys@;
        let ghost lr = labels@;
        let k = keys.remove(0);
        let v = labels.remove(0);
        assert(k == fk[y as int] && v == fl[y as int]);
        r.push((k, v));
        y = y + 1;
        proof {
            assert forall|z: int| 0 <= z < keys@.len() implies #[trigger] keys@[z] == fk[z + y] by {
                assert(keys@[z] == kr[z + 1]);
            }
            assert forall|z: int| 0 <= z < labels@.len() implies #[trigger] labels@[z] == fl[z + y] by {
                assert(labels@[z] == lr[z + 1]);
            }
        }
    }
    proof {
        assert forall|k: Seq<char>| #[trigger] assoc_keys(r@).contains(k) <==> used(pv, k) by {
            if assoc_keys(r@).contains(k) {
                let j = choose|j: int| 0 <= j < r@.len() && (#[trigger] r@[j]).0@ == k;
                assert(fk[j]@ == k);
                assert(names_in(fk).contains(k));
            }
            if used(pv, k) {
                assert(names_in(fk).contains(k));
                let j = choose|j: int| 0 <= j < fk.len() && (#[trigger] fk[j])@ == k;
                assert(r@[j].0@ == k);
            }
        }
    }
    r
}

fn push_pair(uses: &mut Vec<(String, String)>, a: String, l: String)
    ensures
        pair_views(final(uses)@) == pair_views(old(uses)@).push((a@, l@)),
{
    uses.push((a, l));
    proof {
        assert(pair_views(uses@) =~= pair_views(old(uses)@).push((a@, l@)));
    }
}

fn push_labeled_names(uses: &mut Vec<(String, String)>, names: &Vec<String>, label: &str)
    ensures
        pair_views(final(uses)@) == pair_views(old(uses)@) + labeled(string_views(names@), label@),
{
    let ghost base = pair_views(uses@);
    let mut i: usize = 0;
    proof {
        assert(labeled(string_views(names@.subrange(0, 0)), label@) =~= Seq::empty());
        assert(base + Seq::<(Seq<char>, Seq<char>)>::empty() =~= base);
    }
    while i < names.len()
        invariant
            i <= names@.len(),
            pair_views(uses@) == base + labeled(string_views(names@.subrange(0, i as int)), label@),
        decreases names@.len() - i,
    {
        push_pair(uses, names[i].clone(), crate::strings::owned(label));
        proof {
            assert(labeled(string_views(names@.subrange(0, i + 1)), label@)
                =~= labeled(string_views(names@.subrange(0, i as int)), label@).push((names@[i as int]@, label@)));
            assert(base + labeled(string_views(names@.subrange(0, i + 1)), label@)
                =~= (base + labeled(string_views(names@.subrange(0, i as int)), label@)).push((names@[i as int]@, label@)));
        }
        i = i + 1;
    }
    proof {
        assert(names@.subrange(0, names@.len() as int) =~= names@);
    }
}

fn push_node_assets(uses: &mut Vec<(String, String)>, nodes: &Vec<Node>, label: &str)
    ensures
        pair_views(final(uses)@) == pair_views(old(uses)@) + labeled(node_assets(nodes@), label@),
{
    let ghost base = pair_views(uses@);
    let mut i: usize = 0;
    proof {
        assert(nodes@.subrange(0, 0) =~= Seq::<Node>::empty());
        assert(labeled(node_assets(nodes@.subrange(0, 0)), label@) =~= Seq::empty());
        assert(base + Seq::<(Seq<char>, Seq<char>)>::empty() =~= base);
    }
    while i < nodes.len()
        invariant
            i <= nodes@.len(),
            pair_views(uses@) == base + labeled(node_assets(nodes@.subrange(0, i as int)), label@),
        decreases nodes@.len() - i,
    {
        let ghost pre = nodes@.subrange(0, i as int);
        let ghost next = nodes@.subrange(0, i + 1);
        proof {
            assert(next.drop_last() =~= pre);
            assert(next.last() == nodes@[i as int]);
        }
        match &nodes[i].asset {
            Some(a) => {
                push_pair(uses, a.clone(), crate::strings::owned(label));
                proof {
                    assert(node_assets(next) == node_assets(pre).push(a@));
                    assert(labeled(node_assets(next), label@) =~= labeled(node_assets(pre), label@).push((a@, label@)));
                    assert(base + labeled(node_assets(next), label@) =~= (base + labeled(node_assets(pre), label@)).push((a@, label@)));
                }
            },
            None => {
                proof {
                    assert(node_assets(next) == node_assets(pre));
                }
            },
        }
        i = i + 1;
    }
    proof {
        assert(nodes@.subrange(0, nodes@.len() as int) =~= nodes@);
    }
}

fn push_audio_assets(uses: &mut Vec<(String, String)>, effects: &Vec<EffectDef>, label: &str)
    ensures
        pair_views(final(uses)@) == pair_views(old(uses)@) + labeled(audio_assets(effects@), label@),
{
    let ghost base = pair_views(uses@);
    let mut i: usize = 0;
    proof {
        assert(effects@.subrange(0, 0) =~= Seq::<EffectDef>::empty());
        assert(labeled(audio_assets(effects@.subrange(0, 0)), label@) =~= Seq::empty());
        assert(base + Seq::<(Seq<char>, Seq<char>)>::empty() =~= base);
    }
    while i < effects.len()
        invariant
            i <= effects@.len(),
            pair_views(uses@) == base + labeled(audio_assets(effects@.subrange(0, i as int)), label@),
        decreases effects@.len() - i,
    {
        let ghost pre = effects@.subrange(0, i as int);
        let ghost next = effects@.subrange(0, i + 1);
        proof {
            assert(next.drop_last() =~= pre);
            assert(next.last() == effects@[i as int]);
        }
        match &effects[i].effect {
            Effect::Audio { asset, .. } => {
                push_pair(uses, asset.clone(), crate::strings::owned(label));
                proof {
                    assert(audio_assets(next) == audio_assets(pre).push(asset@));
                    assert(labeled(audio_assets(next), label@) =~= labeled(audio_assets(pre), label@).push((asset@, label@)));
                    assert(base + labeled(audio_assets(next), label@) =~= (base + labeled(audio_assets(pre), label@)).push((asset@, label@)));
                }
            },
            _ => {
                proof {
                    assert(audio_assets(next) == audio_assets(pre));
                }
            },
        }
        i = i + 1;
    }
    proof {
        assert(effects@.subrange(0, effects@.len() as int) =~= effects@);
    }
}

fn push_font_uses(uses: &mut Vec<(String, String)>, plans: &Vec<(String, LocaleFontPlan)>, prefix: &str)
    ensures
        pair_views(final(uses)@) == pair_views(old(uses)@) + font_uses(plans@, prefix@),
{
    let ghost base = pair_views(uses@);
    let mut i: usize = 0;
    proof {
        assert(plans@.subrange(0, 0) =~= Seq::<(String, LocaleFontPlan)>::empty());
        assert(base + Seq::<(Seq<char>, Seq<char>)>::empty() =~= base);
    }
    while i < plans.len()
        invariant
            i <= plans@.len(),
            pair_views(uses@) == base + font_uses(plans@.subrange(0, i as int), prefix@),
        decreases plans@.len() - i,
    {
        let ghost pre = plans@.subrange(0, i as int);
        let ghost next = plans@.subrange(0, i + 1);
        proof {
            assert(next.drop_last() =~= pre);
            assert(next.last() == plans@[i as int]);
        }
        let label = concat(prefix, plans[i].0.as_str());
        push_labeled_names(uses, &plans[i].1.fonts, label.as_str());
        proof {
            assert(base + font_uses(next, prefix@) =~= base + font_uses(pre, prefix@) + labeled(string_views(plans@[i as int].1.fonts@), label@));
        }
        i = i + 1;
    }
    proof {
        assert(plans@.subrange(0, plans@.len() as int) =~= plans@);
    }
}

/// For each asset, the consumers that need it: the modules owning the
/// scenes that show it and the cues that play it, the bootstrap for the
/// title scene, and each locale whose font plan lists it. Every asset with a
/// consumer appears once.
pub fn asset_consumers(
    scenes: &Vec<(String, Vec<Node>)>,
    cues: &Vec<(String, Cue)>,
    title_scene: &Option<String>,
    config: &LocaleConfig,
    scene_owners: &Vec<(String, String)>,
    cue_owners: &Vec<(String, String)>,
) -> (r: Vec<(String, Vec<String>)>)
    ensures
        forall|a: int, b: int| 0 <= a < b < r@.len() ==> (#[trigger] r@[a]).0@ != (#[trigger] r@[b]).0@,
        forall|x: int| 0 <= x < r@.len() ==> names_in((#[trigger] r@[x]).1@)
            == consumers_of(asset_uses(scenes@, cues@, *title_scene, *config, scene_owners@, cue_owners@), r@[x].0@),
        forall|k: Seq<char>| #[trigger] assoc_keys(r@).contains(k)
            <==> used(asset_uses(scenes@, cues@, *title_scene, *config, scene_owners@, cue_owners@), k),
{
    let mut uses: Vec<(String, String)> = Vec::new();
    let mut i: usize = 0;
    proof {
        assert(pair_views(uses@) =~= Seq::empty());
        assert(scenes@.subrange(0, 0) =~= Seq::<(String, Vec<Node>)>::empty());
    }
    while i < scenes.len()
        invariant
            i <= scenes@.len(),
            pair_views(uses@) == scene_uses(scenes@.subrange(0, i as int), scene_owners@),
        decreases scenes@.len() - i,
    {
        let ghost pre = scenes@.subrange(0, i as int);
        let ghost next = scenes@.subrange(0, i + 1);
        proof {
            assert(next.drop_last() =~= pre);
            assert(next.last() == scenes@[i as int]);
        }
        match get_entry(scene_owners, scenes[i].0.as_str()) {
            Some(m) => {
                let label = concat("module:", m.as_str());
                push_node_assets(&mut uses, &scenes[i].1, label.as_str());
            },
            None => {
                proof {
                    assert(scene_uses(next, scene_owners@) =~= scene_uses(pre, scene_owners@));
                }
            },
        }
        i = i + 1;
    }
    proof {
        assert(scenes@.subrange(0, scenes@.len() as int) =~= scenes@);
    }
    let ghost after_scenes = pair_views(uses@);
    let mut c: usize = 0;
    proof {
        assert(cues@.subrange(0, 0) =~= Seq::<(String, Cue)>::empty());
        assert(after_scenes + Seq::<(Seq<char>, Seq<char>)>::empty() =~= after_scenes);
    }
    while c < cues.len()
        invariant
            c <= cues@.len(),
            pair_views(uses@) == after_scenes + cue_uses(cues@.subrange(0, c as int), cue_owners@),
        decreases cues@.len() - c,
    {
        let ghost pre = cues@.subrange(0, c as int);
        let ghost next = cues@.subrange(0, c + 1);
        proof {
            assert(next.drop_last() =~= pre);
            assert(next.last() == cues@[c as int]);
        }
        match get_entry(cue_owners, cues[c].0.as_str()) {
            Some(m) => {
                let label = concat("module:", m.as_str());
                push_audio_assets(&mut uses, &cues[c].1.effects, label.as_str());
                proof {
                    assert(after_scenes + cue_uses(next, cue_owners@) =~= after_scenes + cue_uses(pre, cue_owners@)
                        + labeled(audio_assets(cues@[c as int].1.effects@), label@));
                }
            },
            None => {
                proof {
                    assert(cue_uses(next, cue_owners@) =~= cue_uses(pre, cue_owners@));
                }
            },
        }
        c = c + 1;
    }
    proof {
        assert(cues@.subrange(0, cues@.len() as int) =~= cues@);
    }
    let named = match title_scene {
        Some(t) => get_entry(scenes, t.as_str()),
        None => None,
    };
    let title = match named {
        Some(n) => Some(n),
        None => if scenes.len() > 0 { Some(&scenes[0].1) } else { None },
    };
    match title {
        Some(n) => {
            push_node_assets(&mut uses, n, "bootstrap");
        },
        None => {},
    }
    push_font_uses(&mut uses, &config.ui, "locale:ui:");
    push_font_uses(&mut uses, &config.text, "locale:text:");
    proof {
        assert(pair_views(uses@) =~= asset_uses(scenes@, cues@, *title_scene, *config, scene_owners@, cue_owners@));
    }
    group_uses(&uses)
}

} // verus!
