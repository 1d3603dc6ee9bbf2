//! Which module owns each function and text of a program: every module
//! index claims its functions and texts, each of which the program must
//! declare, no two claims may name the same one, and together they must
//! cover the program.
use crate::assoc::{assoc, assoc_keys, contains_name, get_entry, lemma_assoc_first, lemma_assoc_some};
use crate::strings::{concat, concat3, owned, str_eq};
use crate::table::names_in;
use vstd::prelude::*;
use vstd::string::*;

verus! {

/// The functions and texts that one module's index claims.
#[derive(Debug, Clone)]
pub struct ModuleClaims {
    pub functions: Vec<String>,
    pub texts: Vec<String>,
}

/// The owner tables: each function and each text with its module, in the
/// order the modules claim them.
#[derive(Debug, Clone)]
pub struct Ownership {
    pub function_owners: Vec<(String, String)>,
    pub text_owners: Vec<(String, String)>,
}

/// A list of name pairs, as views.
pub open spec fn pair_views(v: Seq<(String, String)>) -> Seq<(Seq<char>, Seq<char>)> {
    v.map_values(|p: (String, String)| (p.0@, p.1@))
}

/// The names of a list, each with module `m`.
pub open spec fn claimed(names: Seq<String>, m: Seq<char>) -> Seq<(Seq<char>, Seq<char>)> {
    names.map_values(|f: String| (f@, m))
}

/// The function claims of the first `i` modules, in order.
pub open spec fn function_claims(ms: Seq<(String, ModuleClaims)>, i: int) -> Seq<(Seq<char>, Seq<char>)>
    decreases i,
{
    if i <= 0 {
        Seq::empty()
    } else {
        function_claims(ms, i - 1) + claimed(ms[i - 1].1.functions@, ms[i - 1].0@)
    }
}

/// The text claims of the first `i` modules, in order.
pub open spec fn text_claims(ms: Seq<(String, ModuleClaims)>, i: int) -> Seq<(Seq<char>, Seq<char>)>
    decreases i,
{
    if i <= 0 {
        Seq::empty()
    } else {
        text_claims(ms, i - 1) + claimed(ms[i - 1].1.texts@, ms[i - 1].0@)
    }
}

/// Some pair of the list has name `k` first.
pub open spec fn key_in(v: Seq<(Seq<char>, Seq<char>)>, k: Seq<char>) -> bool {
    exists|p: int| 0 <= p < v.len() && (#[trigger] v[p]).0 == k
}

/// No name is first in two pairs.
pub open spec fn keys_distinct(v: Seq<(Seq<char>, Seq<char>)>) -> bool {
    forall|p: int, q: int| 0 <= p < q < v.len() ==> (#[trigger] v[p]).0 != (#[trigger] v[q]).0
}

/// The first message that `f` finds among the indices below `n`.
pub open spec fn first_msg(n: int, f: spec_fn(int) -> Option<Seq<char>>) -> Option<Seq<char>>
    decreases n,
{
    if n <= 0 {
        None
    } else {
        match first_msg(n - 1, f) {
            Some(e) => Some(e),
            None => f(n - 1),
        }
    }
}

pub(crate) proof fn lemma_first_msg_hit(f: spec_fn(int) -> Option<Seq<char>>, k: int, n: int)
    requires
        0 <= k < n,
        first_msg(k, f) is None,
        f(k) is Some,
    ensures
        first_msg(n, f) == f(k),
    decreases n - k,
{
    if k + 1 < n {
        lemma_first_msg_hit(f, k, n - 1);
    }
}

/// The error of claim `k` among `names` for module `m` after the claims
/// `start`: a name that `declared` lacks (with its own message where
/// `missing`), or a name claimed before.
pub open spec fn name_claim_error(start: Seq<(Seq<char>, Seq<char>)>, names: Seq<String>, m: Seq<char>, declared: Seq<String>, missing: bool, kind: Seq<char>, k: int) -> Option<Seq<char>> {
    let f = names[k]@;
    if missing && !names_in(declared).contains(f) {
        Some("E_MODULE: "@ + m + " owns missing "@ + kind + " "@ + f)
    } else if !names_in(declared).contains(f) || key_in(start + claimed(names.subrange(0, k), m), f) {
        Some("E_MODULE: invalid or duplicate "@ + kind + " ownership for "@ + f)
    } else {
        None
    }
}

/// The claim error of name `k`.
pub open spec fn name_check(start: Seq<(Seq<char>, Seq<char>)>, names: Seq<String>, m: Seq<char>, declared: Seq<String>, missing: bool, kind: Seq<char>) -> spec_fn(int) -> Option<Seq<char>> {
    |k: int| name_claim_error(start, names, m, declared, missing, kind, k)
}

/// The error of module `i`: an empty name or no function; else its first
/// function claim error (a function the program lacks, or one claimed
/// before); else its first text claim error.
pub open spec fn module_claims_error(ms: Seq<(String, ModuleClaims)>, fs: Seq<String>, ts: Seq<String>, i: int) -> Option<Seq<char>> {
    let m = ms[i].0@;
    let c = ms[i].1;
    if m.len() == 0 || c.functions@.len() == 0 {
        Some("E_MODULE: "@ + m + " has an empty identity or function interface"@)
    } else {
        match first_msg(c.functions@.len() as int, name_check(function_claims(ms, i), c.functions@, m, fs, true, "function"@)) {
            Some(e) => Some(e),
            None => first_msg(c.texts@.len() as int, name_check(text_claims(ms, i), c.texts@, m, ts, false, "text"@)),
        }
    }
}

/// The error of module `i`.
pub open spec fn module_check(ms: Seq<(String, ModuleClaims)>, fs: Seq<String>, ts: Seq<String>) -> spec_fn(int) -> Option<Seq<char>> {
    |i: int| module_claims_error(ms, fs, ts, i)
}

/// The claims leave a function or text of the program unowned, or differ
/// from the program in number.
pub open spec fn coverage_fails(ms: Seq<(String, ModuleClaims)>, fs: Seq<String>, ts: Seq<String>) -> bool {
    let fc = function_claims(ms, ms.len() as int);
    let tc = text_claims(ms, ms.len() as int);
    ||| fc.len() != fs.len()
    ||| (exists|j: int| 0 <= j < fs.len() && !key_in(fc, (#[trigger] fs[j])@))
    ||| tc.len() != ts.len()
    ||| (exists|j: int| 0 <= j < ts.len() && !key_in(tc, (#[trigger] ts[j])@))
}

/// The error of assigning owners: the first module error, else a coverage
/// failure.
pub open spec fn ownership_error(ms: Seq<(String, ModuleClaims)>, fs: Seq<String>, ts: Seq<String>) -> Option<Seq<char>> {
    match first_msg(ms.len() as int, module_check(ms, fs, ts)) {
        Some(e) => Some(e),
        None => if coverage_fails(ms, fs, ts) {
            Some("E_MODULE: module indexes do not own every function and text contract"@)
        } else {
            None
        },
    }
}

fn pairs_have_key(v: &Vec<(String, String)>, k: &str) -> (r: bool)
    ensures
        r == key_in(pair_views(v@), k@),
{
    let found = get_entry(v, k).is_some();
    proof {
        lemma_assoc_some(v@, k@);
        if found {
            let p = choose|p: int| 0 <= p < v@.len() && (#[trigger] v@[p]).0@ == k@;
            assert(pair_views(v@)[p].0 == k@);
        } else {
            assert forall|p: int| 0 <= p < pair_views(v@).len() implies (#[trigger] pair_views(v@)[p]).0 != k@ by {
                if pair_views(v@)[p].0 == k@ {
                    assert(v@[p].0@ == k@);
                    assert(assoc_keys(v@).contains(k@));
                }
            }
        }
    }
    found
}

/// Claims `names` for module `m` after `owners`, stopping at the first
/// claim error.
fn claim_names(
    owners: &mut Vec<(String, String)>,
    names: &Vec<String>,
    m: &String,
    declared: &Vec<String>,
    missing: bool,
    kind: &str,
) -> (r: Result<(), String>)
    requires
        keys_distinct(pair_views(old(owners)@)),
    ensures
        keys_distinct(pair_views(final(owners)@)),
        match first_msg(names@.len() as int, name_check(pair_views(old(owners)@), names@, m@, declared@, missing, kind@)) {
            Some(e) => r matches Err(x) && x@ == e,
            None => r is Ok && pair_views(final(owners)@) == pair_views(old(owners)@) + claimed(names@, m@),
        },
{
    let ghost start = pair_views(owners@);
    let ghost f = name_check(start, names@, m@, declared@, missing, kind@);
    let mut k: usize = 0;
    while k < names.len()
        invariant
            k <= names@.len(),
            f == name_check(start, names@, m@, declared@, missing, kind@),
            start == pair_views(old(owners)@),
            pair_views(owners@) == start + claimed(names@.subrange(0, k as int), m@),
            keys_distinct(pair_views(owners@)),
            first_msg(k as int, f) is None,
        decreases names@.len() - k,
    {
        let x = &names[k];
        proof {
            assert(f(k as int) == name_claim_error(start, names@, m@, declared@, missing, kind@, k as int));
        }
        let known = contains_name(declared, x.as_str());
        if missing && !known {
            proof {
                lemma_first_msg_hit(f, k as int, names@.len() as int);
            }
            let e1 = concat3("E_MODULE: ", m.as_str(), " owns missing ");
            let e2 = concat3(e1.as_str(), kind, " ");
            let e = concat(e2.as_str(), x.as_str());
            proof {
                assert(e@ =~= "E_MODULE: "@ + m@ + " owns missing "@ + kind@ + " "@ + x@);
            }
            return Err(e);
        }
        if !known || pairs_have_key(owners, x.as_str()) {
            proof {
                lemma_first_msg_hit(f, k as int, names@.len() as int);
            }
            let e1 = concat3("E_MODULE: invalid or duplicate ", kind, " ownership for ");
            let e = concat(e1.as_str(), x.as_str());
            proof {
                assert(e@ =~= "E_MODULE: invalid or duplicate "@ + kind@ + " ownership for "@ + x@);
            }
            return Err(e);
        }
        let ghost before = pair_views(owners@);
        owners.push((x.clone(), m.clone()));
        proof {
            assert(names@.subrange(0, k + 1) =~= names@.subrange(0, k as int).push(names@[k as int]));
            assert(pair_views(owners@) =~= before.push((x@, m@)));
            assert(claimed(names@.subrange(0, k + 1), m@) =~= claimed(names@.subrange(0, k as int), m@).push((x@, m@)));
            assert forall|p: int, q: int| 0 <= p < q < pair_views(owners@).len()
                implies (#[trigger] pair_views(owners@)[p]).0 != (#[trigger] pair_views(owners@)[q]).0 by {
                if q == before.len() {
                    assert(pair_views(owners@)[p] == before[p]);
                }
            }
        }
        k = k + 1;
    }
    proof {
        assert(names@.subrange(0, names@.len() as int) =~= names@);
    }
    Ok(())
}


fn all_owned(owners: &Vec<(String, String)>, names: &Vec<String>) -> (r: bool)
    ensures
        r == forall|j: int| 0 <= j < names@.len() ==> key_in(pair_views(owners@), (#[trigger] names@[j])@),
{
    let mut j: usize = 0;
    while j < names.len()
        invariant
            j <= names@.len(),
            forall|q: int| 0 <= q < j ==> key_in(pair_views(owners@), (#[trigger] names@[q])@),
        decreases names@.len() - j,
    {
        if !pairs_have_key(owners, names[j].as_str()) {
            return false;
        }
        j = j + 1;
    }
    true
}

/// Assigns each function and text of a program to the module whose index
/// claims it. Modules are taken in order: each needs a name and at least
/// one function; each function it claims must be one of `functions`, each
/// text one of `texts`, and none may be claimed twice; in the end every
/// function and text must be claimed. The first failure is the error. On
/// success the owner tables list the claims in order, each name once, and
/// own every function and text of the program.
pub fn assign_ownership(modules: &Vec<(String, ModuleClaims)>, functions: &Vec<String>, texts: &Vec<String>) -> (r: Result<Ownership, String>)
    ensures
        match ownership_error(modules@, functions@, texts@) {
            Some(e) => r matches Err(x) && x@ == e,
            None => r matches Ok(o) && {
                &&& pair_views(o.function_owners@) == function_claims(modules@, modules@.len() as int)
                &&& pair_views(o.text_owners@) == text_claims(modules@, modules@.len() as int)
                &&& keys_distinct(pair_views(o.function_owners@))
                &&& keys_distinct(pair_views(o.text_owners@))
                &&& forall|j: int| 0 <= j < functions@.len() ==> key_in(pair_views(o.function_owners@), (#[trigger] functions@[j])@)
                &&& forall|j: int| 0 <= j < texts@.len() ==> key_in(pair_views(o.text_owners@), (#[trigger] texts@[j])@)
            },
        },
{
    let ghost g = module_check(modules@, functions@, texts@);
    let mut fo: Vec<(String, String)> = Vec::new();
    let mut to: Vec<(String, String)> = Vec::new();
    proof {
        assert(pair_views(fo@) =~= function_claims(modules@, 0));
        assert(pair_views(to@) =~= text_claims(modules@, 0));
    }
    let mut i: usize = 0;
    while i < modules.len()
        invariant
            i <= modules@.len(),
            g == module_check(modules@, functions@, texts@),
            first_msg(i as int, g) is None,
            pair_views(fo@) == function_claims(modules@, i as int),
            pair_views(to@) == text_claims(modules@, i as int),
            keys_distinct(pair_views(fo@)),
            keys_distinct(pair_views(to@)),
        decreases modules@.len() - i,
    {
        let m = &modules[i].0;
        let c = &modules[i].1;
        proof {
            assert(g(i as int) == module_claims_error(modules@, functions@, texts@, i as int));
        }
        if m.unicode_len() == 0 || c.functions.len() == 0 {
            proof {
                lemma_first_msg_hit(g, i as int, modules@.len() as int);
            }
            let e = concat3("E_MODULE: ", m.as_str(), " has an empty identity or function interface");
            return Err(e);
        }
        match claim_names(&mut fo, &c.functions, m, functions, true, "function") {
            Ok(()) => {},
            Err(e) => {
                proof {
                    reveal_strlit("function");
                    lemma_first_msg_hit(g, i as int, modules@.len() as int);
                }
                return Err(e);
            },
        }
        match claim_names(&mut to, &c.texts, m, texts, false, "text") {
            Ok(()) => {},
            Err(e) => {
                proof {
                    reveal_strlit("text");
                    lemma_first_msg_hit(g, i as int, modules@.len() as int);
                }
                return Err(e);
            },
        }
        proof {
            reveal_strlit("function");
            reveal_strlit("text");
            assert(g(i as int) is None);
        }
        i = i + 1;
    }
    let covered = fo.len() == functions.len() && all_owned(&fo, functions) && to.len() == texts.len() && all_owned(&to, texts);
    if !covered {
        return Err(owned("E_MODULE: module indexes do not own every function and text contract"));
    }
    Ok(Ownership { function_owners: fo, text_owners: to })
}


/// The owner of cue `c`, as a view.
pub open spec fn cue_owner(cue_owners: Seq<(String, String)>, c: Seq<char>) -> Seq<char> {
    assoc(cue_owners, c).unwrap()@
}

/// The task claims of the first `i` cues, in order: each task of a cue
/// with the cue's owner.
pub open spec fn task_claims(cues: Seq<(String, Vec<String>)>, cue_owners: Seq<(String, String)>, i: int) -> Seq<(Seq<char>, Seq<char>)>
    decreases i,
{
    if i <= 0 {
        Seq::empty()
    } else {
        task_claims(cues, cue_owners, i - 1) + claimed(cues[i - 1].1@, cue_owner(cue_owners, cues[i - 1].0@))
    }
}

/// Claim `q` names a task that an earlier claim gives another module.
pub open spec fn clash_at(claims: Seq<(Seq<char>, Seq<char>)>, q: int) -> bool {
    exists|p: int| 0 <= p < q && (#[trigger] claims[p]).0 == claims[q].0 && claims[p].1 != claims[q].1
}

/// The error of claim `q`.
pub open spec fn clash_check(claims: Seq<(Seq<char>, Seq<char>)>) -> spec_fn(int) -> Option<Seq<char>> {
    |q: int| if clash_at(claims, q) {
        Some("E_TASK_OWNER: duplicate task "@ + claims[q].0)
    } else {
        None
    }
}

/// The first task, in cue order, that two cues of different owners
/// define.
pub open spec fn task_owner_error(cues: Seq<(String, Vec<String>)>, cue_owners: Seq<(String, String)>) -> Option<Seq<char>> {
    let claims = task_claims(cues, cue_owners, cues.len() as int);
    first_msg(claims.len() as int, clash_check(claims))
}

/// Every claim agrees with the entry of `owners` for its task, which
/// exists.
pub open spec fn owners_agree(owners: Seq<(Seq<char>, Seq<char>)>, claims: Seq<(Seq<char>, Seq<char>)>) -> bool {
    &&& forall|q: int| 0 <= q < claims.len() ==> key_in(owners, (#[trigger] claims[q]).0)
    &&& forall|p: int, q: int| 0 <= p < owners.len() && 0 <= q < claims.len() && (#[trigger] owners[p]).0 == (#[trigger] claims[q]).0
        ==> owners[p].1 == claims[q].1
    &&& forall|p: int| 0 <= p < owners.len() ==> key_in(claims, (#[trigger] owners[p]).0)
}


proof fn lemma_agree_known(o: Seq<(Seq<char>, Seq<char>)>, pre: Seq<(Seq<char>, Seq<char>)>, t: int, id: Seq<char>, m: Seq<char>)
    requires
        owners_agree(o, pre),
        keys_distinct(o),
        0 <= t < o.len(),
        o[t] == (id, m),
    ensures
        owners_agree(o, pre.push((id, m))),
{
    let post = pre.push((id, m));
    assert forall|q: int| 0 <= q < post.len() implies key_in(o, (#[trigger] post[q]).0) by {
        if q < pre.len() {
            assert(post[q] == pre[q]);
        } else {
            assert(o[t].0 == post[q].0);
        }
    }
    assert forall|p: int, q: int| 0 <= p < o.len() && 0 <= q < post.len() && (#[trigger] o[p]).0 == (#[trigger] post[q]).0
        implies o[p].1 == post[q].1 by {
        if q < pre.len() {
            assert(post[q] == pre[q]);
        } else if p != t {
            if p < t {
                assert(o[p].0 != o[t].0);
            } else {
                assert(o[t].0 != o[p].0);
            }
        }
    }
    assert forall|p: int| 0 <= p < o.len() implies key_in(post, (#[trigger] o[p]).0) by {
        let w = choose|w: int| 0 <= w < pre.len() && (#[trigger] pre[w]).0 == o[p].0;
        assert(post[w] == pre[w]);
    }
}

proof fn lemma_agree_new(o: Seq<(Seq<char>, Seq<char>)>, pre: Seq<(Seq<char>, Seq<char>)>, id: Seq<char>, m: Seq<char>)
    requires
        owners_agree(o, pre),
        !key_in(o, id),
    ensures
        owners_agree(o.push((id, m)), pre.push((id, m))),
{
    let o2 = o.push((id, m));
    let post = pre.push((id, m));
    assert forall|q: int| 0 <= q < post.len() implies key_in(o2, (#[trigger] post[q]).0) by {
        if q < pre.len() {
            assert(post[q] == pre[q]);
            let w = choose|w: int| 0 <= w < o.len() && (#[trigger] o[w]).0 == pre[q].0;
            assert(o2[w] == o[w]);
        } else {
            assert(o2[o.len() as int].0 == post[q].0);
        }
    }
    assert forall|p: int, q: int| 0 <= p < o2.len() && 0 <= q < post.len() && (#[trigger] o2[p]).0 == (#[trigger] post[q]).0
        implies o2[p].1 == post[q].1 by {
        if p < o.len() {
            assert(o2[p] == o[p]);
            if q == pre.len() {
                assert(key_in(o, id));
            } else {
                assert(post[q] == pre[q]);
            }
        } else if q < pre.len() {
            assert(post[q] == pre[q]);
            assert(key_in(o, pre[q].0));
        }
    }
    assert forall|p: int| 0 <= p < o2.len() implies key_in(post, (#[trigger] o2[p]).0) by {
        if p < o.len() {
            assert(o2[p] == o[p]);
            let w = choose|w: int| 0 <= w < pre.len() && (#[trigger] pre[w]).0 == o[p].0;
            assert(post[w] == pre[w]);
        } else {
            assert(post[pre.len() as int].0 == o2[p].0);
        }
    }
}

proof fn lemma_distinct_assoc(v: Seq<(String, String)>, t: int)
    requires
        keys_distinct(pair_views(v)),
        0 <= t < v.len(),
    ensures
        assoc(v, v[t].0@) == Some(v[t].1),
{
    assert forall|j: int| 0 <= j < t implies (#[trigger] v[j]).0@ != v[t].0@ by {
        assert(pair_views(v)[j].0 != pair_views(v)[t].0);
    }
    lemma_assoc_first(v, v[t].0@, t);
}

proof fn lemma_task_claims_grow(cues: Seq<(String, Vec<String>)>, cue_owners: Seq<(String, String)>, i: int, n: int)
    requires
        0 <= i <= n,
    ensures
        task_claims(cues, cue_owners, i).len() <= task_claims(cues, cue_owners, n).len(),
        forall|q: int| 0 <= q < task_claims(cues, cue_owners, i).len()
            ==> #[trigger] task_claims(cues, cue_owners, i)[q] == task_claims(cues, cue_owners, n)[q],
    decreases n - i,
{
    if i < n {
        lemma_task_claims_grow(cues, cue_owners, i, n - 1);
    }
}

/// Gives every task the owner of the cue that defines it, cues taken in
/// order; a task that cues of two owners define is an error, the first
/// such claim reported. On success each task appears once, with the owner
/// of every cue that defines it.
pub fn task_owners(cues: &Vec<(String, Vec<String>)>, cue_owners: &Vec<(String, String)>) -> (r: Result<Vec<(String, String)>, String>)
    requires
        forall|i: int| 0 <= i < cues@.len() ==> assoc(cue_owners@, (#[trigger] cues@[i]).0@) is Some,
    ensures
        match task_owner_error(cues@, cue_owners@) {
            Some(e) => r matches Err(x) && x@ == e,
            None => r matches Ok(o) && keys_distinct(pair_views(o@))
                && owners_agree(pair_views(o@), task_claims(cues@, cue_owners@, cues@.len() as int)),
        },
{
    let ghost all = task_claims(cues@, cue_owners@, cues@.len() as int);
    let ghost g = clash_check(all);
    let mut owners: Vec<(String, String)> = Vec::new();
    let mut i: usize = 0;
    while i < cues.len()
        invariant
            i <= cues@.len(),
            forall|j: int| 0 <= j < cues@.len() ==> assoc(cue_owners@, (#[trigger] cues@[j]).0@) is Some,
            all == task_claims(cues@, cue_owners@, cues@.len() as int),
            g == clash_check(all),
            keys_distinct(pair_views(owners@)),
            owners_agree(pair_views(owners@), task_claims(cues@, cue_owners@, i as int)),
            first_msg(task_claims(cues@, cue_owners@, i as int).len() as int, g) is None,
        decreases cues@.len() - i,
    {
        let m = match get_entry(cue_owners, cues[i].0.as_str()) {
            Some(m) => m,
            None => {
                proof {
                    assert(assoc(cue_owners@, cues@[i as int].0@) is Some);
                }
                return Err(owned("E_TASK_OWNER: cue without owner"));
            },
        };
        let tasks = &cues[i].1;
        let ghost base = task_claims(cues@, cue_owners@, i as int);
        proof {
            lemma_task_claims_grow(cues@, cue_owners@, i as int + 1, cues@.len() as int);
            assert(task_claims(cues@, cue_owners@, i + 1) == base + claimed(tasks@, m@));
        }
        let mut k: usize = 0;
        while k < tasks.len()
            invariant
                k <= tasks@.len(),
                i < cues@.len(),
                tasks == &cues@[i as int].1,
                base == task_claims(cues@, cue_owners@, i as int),
                all == task_claims(cues@, cue_owners@, cues@.len() as int),
                g == clash_check(all),
                (base + claimed(tasks@, m@)).len() <= all.len(),
                forall|q: int| 0 <= q < (base + claimed(tasks@, m@)).len() ==> #[trigger] (base + claimed(tasks@, m@))[q] == all[q],
                keys_distinct(pair_views(owners@)),
                owners_agree(pair_views(owners@), base + claimed(tasks@.subrange(0, k as int), m@)),
                first_msg(base.len() + k, g) is None,
            decreases tasks@.len() - k,
        {
            let id = &tasks[k];
            let ghost pre = base + claimed(tasks@.subrange(0, k as int), m@);
            let ghost q = base.len() + k;
            proof {
                assert((base + claimed(tasks@, m@))[q] == claimed(tasks@, m@)[k as int]);
                assert(claimed(tasks@, m@)[k as int] == (tasks@[k as int]@, m@));
                assert(all[q] == (id@, m@));
                assert forall|p: int| 0 <= p < q implies #[trigger] all[p] == pre[p] by {
                    assert(all[p] == (base + claimed(tasks@, m@))[p]);
                }
            }
            match get_entry(&owners, id.as_str()) {
                Some(prev) => {
                    if !str_eq(prev.as_str(), m.as_str()) {
                        proof {
                            lemma_assoc_some(owners@, id@);
                            let t = choose|t: int| 0 <= t < owners@.len() && (#[trigger] owners@[t]).0@ == id@;
                            lemma_distinct_assoc(owners@, t);
                            assert(pair_views(owners@)[t].0 == id@);
                            let p = choose|p: int| 0 <= p < pre.len() && (#[trigger] pre[p]).0 == pair_views(owners@)[t].0;
                            assert(all[p] == pre[p]);
                            assert(clash_at(all, q));
                            lemma_first_msg_hit(g, q, all.len() as int);
                        }
                        let e = concat("E_TASK_OWNER: duplicate task ", id.as_str());
                        return Err(e);
                    }
                    proof {
                        lemma_assoc_some(owners@, id@);
                        let t = choose|t: int| 0 <= t < owners@.len() && (#[trigger] owners@[t]).0@ == id@;
                        lemma_distinct_assoc(owners@, t);
                        assert forall|p: int| 0 <= p < q && (#[trigger] all[p]).0 == all[q].0 implies all[p].1 == all[q].1 by {
                            assert(all[p] == pre[p]);
                            assert(pair_views(owners@)[t].0 == pre[p].0);
                        }
                        assert(!clash_at(all, q));
                        assert(pair_views(owners@)[t] == (id@, m@));
                        lemma_agree_known(pair_views(owners@), pre, t, id@, m@);
                    }
                },
                None => {
                    proof {
                        lemma_assoc_some(owners@, id@);
                        assert forall|p: int| 0 <= p < q implies (#[trigger] all[p]).0 != all[q].0 by {
                            assert(all[p] == pre[p]);
                            if pre[p].0 == id@ {
                                let t = choose|t: int| 0 <= t < pair_views(owners@).len() && (#[trigger] pair_views(owners@)[t]).0 == pre[p].0;
                                assert(owners@[t].0@ == id@);
                            }
                        }
                        assert(!clash_at(all, q));
                    }
                    let ghost before = pair_views(owners@);
                    proof {
                        if key_in(before, id@) {
                            let t = choose|t: int| 0 <= t < before.len() && (#[trigger] before[t]).0 == id@;
                            assert(owners@[t].0@ == id@);
                        }
                        lemma_agree_new(before, pre, id@, m@);
                    }
                    owners.push((id.clone(), m.clone()));
                    proof {
                        assert(pair_views(owners@) =~= before.push((id@, m@)));
                        assert forall|a: int, b: int| 0 <= a < b < pair_views(owners@).len()
                            implies (#[trigger] pair_views(owners@)[a]).0 != (#[trigger] pair_views(owners@)[b]).0 by {
                            if b == before.len() {
                                assert(pair_views(owners@)[a] == before[a]);
                                if before[a].0 == id@ {
                                    assert(owners@[a].0@ == id@);
                                }
                            }
                        }
                    }
                },
            }
            proof {
                assert(tasks@.subrange(0, k + 1) =~= tasks@.subrange(0, k as int).push(tasks@[k as int]));
                let post = base + claimed(tasks@.subrange(0, k + 1), m@);
                assert(post =~= pre.push((id@, m@)));
                assert(g(q) is None);
            }
            k = k + 1;
        }
        proof {
            assert(tasks@.subrange(0, tasks@.len() as int) =~= tasks@);
        }
        i = i + 1;
    }
    proof {
        assert(task_claims(cues@, cue_owners@, cues@.len() as int) == all);
    }
    Ok(owners)
}

} // verus!
