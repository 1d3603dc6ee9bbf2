//! The per-view and per-key checks of content admission: a view with
//! retired content admits nothing, operation identities keep the code they
//! were first seen in, and a module's static package is resident before its
//! code or texts.
use crate::assoc::{assoc, get_entry};
use crate::format::Diagnostic;
use crate::strings::str_eq;
use crate::text::DiagText;
use crate::flow::reports;
use vstd::prelude::*;

verus! {

/// The identity of a block of streamed content.
#[derive(Debug, Clone)]
pub enum ContentKey {
    Static { module: String },
    Catalog { catalog: String },
    Code { module: String },
    Text { module: String, locale: String },
}

/// The rank by which a batch is admitted: static packages, then catalogs,
/// then code, then texts.
pub open spec fn key_rank(k: ContentKey) -> u8 {
    match k {
        ContentKey::Static { .. } => 0,
        ContentKey::Catalog { .. } => 1,
        ContentKey::Code { .. } => 2,
        ContentKey::Text { .. } => 3,
    }
}

/// The admission rank of a content key.
pub fn key_priority(k: &ContentKey) -> (r: u8)
    ensures
        r == key_rank(*k),
{
    match k {
        ContentKey::Static { .. } => 0,
        ContentKey::Catalog { .. } => 1,
        ContentKey::Code { .. } => 2,
        ContentKey::Text { .. } => 3,
    }
}

/// Some generation of the view has been retired.
pub open spec fn view_stale(generations: Seq<u64>, retired: Seq<u64>) -> bool {
    exists|i: int, j: int| 0 <= i < generations.len() && 0 <= j < retired.len() && generations[i] == retired[j]
}

/// Refuses to admit from a view that still holds a retired generation.
pub fn check_view_fresh(generations: &Vec<u64>, retired: &Vec<u64>) -> (r: Result<(), Diagnostic>)
    ensures
        view_stale(generations@, retired@) ==> fails_stale(r),
        !view_stale(generations@, retired@) ==> r is Ok,
{
    let mut i: usize = 0;
    while i < generations.len()
        invariant
            i <= generations@.len(),
            forall|a: int, b: int| 0 <= a < i && 0 <= b < retired@.len() ==> generations@[a] != retired@[b],
        decreases generations@.len() - i,
    {
        let mut j: usize = 0;
        while j < retired.len()
            invariant
                i < generations@.len(),
                j <= retired@.len(),
                forall|b: int| 0 <= b < j ==> generations@[i as int] != retired@[b],
            decreases retired@.len() - j,
        {
            if generations[i] == retired[j] {
                return Err(Diagnostic::new("E_RESIDENCY_STALE", "runtime", "cannot admit from a view with retired content"));
            }
            j = j + 1;
        }
        i = i + 1;
    }
    Ok(())
}

/// `r` is the refusal of a stale view.
pub open spec fn fails_stale(r: Result<(), Diagnostic>) -> bool {
    reports(r, Some(("E_RESIDENCY_STALE"@, "runtime"@, "cannot admit from a view with retired content"@)))
}

/// Where an operation identity was first seen: the function and the digest
/// of the code that holds it.
#[derive(Debug, Clone)]
pub struct OpTombstone {
    pub function: String,
    pub code_digest: String,
}

/// Two tombstones name the same function in the same code.
pub open spec fn same_tombstone(a: OpTombstone, b: OpTombstone) -> bool {
    a.function@ == b.function@ && a.code_digest@ == b.code_digest@
}

/// The first entry of `view` whose identity `known` holds with another
/// tombstone, among its first `n`.
pub open spec fn first_conflict(known: Seq<(String, OpTombstone)>, view: Seq<(String, OpTombstone)>, n: int) -> Option<int>
    decreases n,
{
    if n <= 0 {
        None
    } else {
        match first_conflict(known, view, n - 1) {
            Some(i) => Some(i),
            None => match assoc(known, view[n - 1].0@) {
                Some(t) => if same_tombstone(t, view[n - 1].1) {
                    None
                } else {
                    Some(n - 1)
                },
                None => None,
            },
        }
    }
}

proof fn lemma_first_conflict_stays(known: Seq<(String, OpTombstone)>, view: Seq<(String, OpTombstone)>, k: int, n: int)
    requires
        0 <= k <= n,
        first_conflict(known, view, k) is Some,
    ensures
        first_conflict(known, view, n) == first_conflict(known, view, k),
    decreases n - k,
{
    if k < n {
        lemma_first_conflict_stays(known, view, k, n - 1);
    }
}

fn tombstones_equal(a: &OpTombstone, b: &OpTombstone) -> (r: bool)
    ensures
        r == same_tombstone(*a, *b),
{
    str_eq(a.function.as_str(), b.function.as_str()) && str_eq(a.code_digest.as_str(), b.code_digest.as_str())
}

/// Checks that a view's operation tombstones agree with those the ledger
/// knows: the first identity the ledger holds with another tombstone is
/// refused; identities the ledger does not hold are no conflict.
pub fn check_tombstones(known: &Vec<(String, OpTombstone)>, view: &Vec<(String, OpTombstone)>) -> (r: Result<(), Diagnostic>)
    ensures
        match first_conflict(known@, view@, view@.len() as int) {
            Some(i) => reports(r, Some(("E_DUPLICATE"@, view@[i].0@, "operation identity tombstone differs"@))),
            None => r is Ok,
        },
{
    let mut i: usize = 0;
    while i < view.len()
        invariant
            i <= view@.len(),
            first_conflict(known@, view@, i as int) is None,
        decreases view@.len() - i,
    {
        match get_entry(known, view[i].0.as_str()) {
            Some(t) => {
                if !tombstones_equal(t, &view[i].1) {
                    proof {
                        assert(first_conflict(known@, view@, i + 1) == Some(i as int));
                        lemma_first_conflict_stays(known@, view@, i + 1, view@.len() as int);
                    }
                    return Err(Diagnostic::new("E_DUPLICATE", view[i].0.as_str(), "operation identity tombstone differs"));
                }
            },
            None => {},
        }
        i = i + 1;
    }
    Ok(())
}

/// The module whose static package must be resident before `k`: that of a
/// code or text block.
pub open spec fn needs_static(k: ContentKey) -> Option<Seq<char>> {
    match k {
        ContentKey::Code { module } => Some(module@),
        ContentKey::Text { module, .. } => Some(module@),
        _ => None,
    }
}

/// `k` is the static package of module `m`.
pub open spec fn is_static_of(k: ContentKey, m: Seq<char>) -> bool {
    match k {
        ContentKey::Static { module } => module@ == m,
        _ => false,
    }
}

/// `resident` holds the static package of module `m`.
pub open spec fn static_resident(resident: Seq<ContentKey>, m: Seq<char>) -> bool {
    exists|i: int| 0 <= i < resident.len() && is_static_of(#[trigger] resident[i], m)
}

fn static_in(resident: &Vec<ContentKey>, module: &str) -> (b: bool)
    ensures
        b == static_resident(resident@, module@),
{
    let mut i: usize = 0;
    while i < resident.len()
        invariant
            i <= resident@.len(),
            forall|j: int| 0 <= j < i ==> !is_static_of(#[trigger] resident@[j], module@),
        decreases resident@.len() - i,
    {
        match &resident[i] {
            ContentKey::Static { module: s } => {
                if str_eq(s.as_str(), module) {
                    proof {
                        assert(is_static_of(resident@[i as int], module@));
                    }
                    return true;
                }
            },
            _ => {},
        }
        i = i + 1;
    }
    false
}

/// Refuses code or texts of a module whose static package is not resident.
pub fn check_static_first(k: &ContentKey, resident: &Vec<ContentKey>) -> (r: Result<(), Diagnostic>)
    ensures
        match needs_static(*k) {
            Some(m) => if static_resident(resident@, m) {
                r is Ok
            } else {
                reports(r, Some(("E_CONTENT_MISSING"@, m, "static module package must be resident before code or text"@)))
            },
            None => r is Ok,
        },
{
    match k {
        ContentKey::Code { module } | ContentKey::Text { module, .. } => {
            if static_in(resident, module.as_str()) {
                Ok(())
            } else {
                Err(Diagnostic::new("E_CONTENT_MISSING", module.as_str(), "static module package must be resident before code or text"))
            }
        },
        _ => Ok(()),
    }
}

/// The outcome of recording the operations `ops` (identity and function) of
/// code with digest `digest`, one after another, into `seen` and
/// `tombstones`: an identity met twice in this batch, or one whose
/// tombstone names other code, is the error.
pub open spec fn op_record_error(ops: Seq<(String, String)>, digest: Seq<char>, seen: Seq<Seq<char>>, tombstones: Seq<(String, OpTombstone)>, k: int) -> Option<DiagText>
    decreases k,
{
    if k <= 0 {
        None
    } else {
        match op_record_error(ops, digest, seen, tombstones, k - 1) {
            Some(d) => Some(d),
            None => {
                let id = ops[k - 1].0@;
                if seen.contains(id) || exists|j: int| 0 <= j < k - 1 && (#[trigger] ops[j]).0@ == id {
                    Some(("E_DUPLICATE"@, id, "duplicate operation identity"@))
                } else if assoc(tombstones, id) matches Some(t) && !(t.function@ == ops[k - 1].1@ && t.code_digest@ == digest) {
                    Some(("E_DUPLICATE"@, id, "operation identity belongs to different code"@))
                } else {
                    None
                }
            },
        }
    }
}

proof fn lemma_op_record_stays(ops: Seq<(String, String)>, digest: Seq<char>, seen: Seq<Seq<char>>, tombstones: Seq<(String, OpTombstone)>, k: int, n: int)
    requires
        0 <= k <= n,
        op_record_error(ops, digest, seen, tombstones, k) is Some,
    ensures
        op_record_error(ops, digest, seen, tombstones, n) == op_record_error(ops, digest, seen, tombstones, k),
    decreases n - k,
{
    if k < n {
        lemma_op_record_stays(ops, digest, seen, tombstones, k, n - 1);
    }
}

/// Checks the operation identities of one admitted code package: each is
/// new to the batch and, where a tombstone already records it, recorded for
/// the same function in code with the same digest. The first failing
/// operation is the error.
pub fn check_code_ops(ops: &Vec<(String, String)>, digest: &str, seen: &Vec<String>, tombstones: &Vec<(String, OpTombstone)>) -> (r: Result<(), Diagnostic>)
    ensures
        reports(r, op_record_error(ops@, digest@, seen@.map_values(|s: String| s@), tombstones@, ops@.len() as int)),
{
    let ghost sv = seen@.map_values(|s: String| s@);
    let mut k: usize = 0;
    while k < ops.len()
        invariant
            k <= ops@.len(),
            sv == seen@.map_values(|s: String| s@),
            op_record_error(ops@, digest@, sv, tombstones@, k as int) is None,
        decreases ops@.len() - k,
    {
        let id = ops[k].0.as_str();
        let mut dup = false;
        let mut j: usize = 0;
        while j < seen.len()
            invariant
                k < ops@.len(),
                j <= seen@.len(),
                id@ == ops@[k as int].0@,
                sv == seen@.map_values(|s: String| s@),
                dup <==> exists|q: int| 0 <= q < j && (#[trigger] seen@[q])@ == ops@[k as int].0@,
            decreases seen@.len() - j,
        {
            if str_eq(seen[j].as_str(), id) {
                dup = true;
                proof {
                    assert(seen@[j as int]@ == ops@[k as int].0@);
                }
            }
            proof {
                if !dup {
                    assert forall|q: int| 0 <= q < j + 1 implies (#[trigger] seen@[q])@ != ops@[k as int].0@ by {
                        if q < j {
                            assert(!(0 <= q < j && seen@[q]@ == ops@[k as int].0@));
                        }
                    }
                }
            }
            j = j + 1;
        }
        let mut q: usize = 0;
        while q < k
            invariant
                k < ops@.len(),
                q <= k,
                id@ == ops@[k as int].0@,
                sv == seen@.map_values(|s: String| s@),
                dup <==> (exists|p: int| 0 <= p < seen@.len() && (#[trigger] seen@[p])@ == ops@[k as int].0@)
                    || (exists|p: int| 0 <= p < q && (#[trigger] ops@[p]).0@ == ops@[k as int].0@),
            decreases k - q,
        {
            if str_eq(ops[q].0.as_str(), id) {
                dup = true;
                proof {
                    assert(ops@[q as int].0@ == ops@[k as int].0@);
                }
            }
            proof {
                if !dup {
                    assert forall|p: int| 0 <= p < q + 1 implies (#[trigger] ops@[p]).0@ != ops@[k as int].0@ by {
                        if p < q {
                            assert(!(0 <= p < q && ops@[p].0@ == ops@[k as int].0@));
                        }
                    }
                }
            }
            q = q + 1;
        }
        proof {
            assert(sv.contains(ops@[k as int].0@) <==> exists|p: int| 0 <= p < seen@.len() && (#[trigger] seen@[p])@ == ops@[k as int].0@) by {
                if sv.contains(ops@[k as int].0@) {
                    let p = choose|p: int| 0 <= p < sv.len() && sv[p] == ops@[k as int].0@;
                    assert(seen@[p]@ == sv[p]);
                }
                if exists|p: int| 0 <= p < seen@.len() && (#[trigger] seen@[p])@ == ops@[k as int].0@ {
                    let p = choose|p: int| 0 <= p < seen@.len() && (#[trigger] seen@[p])@ == ops@[k as int].0@;
                    assert(sv[p] == seen@[p]@);
                }
            }
        }
        if dup {
            proof {
                lemma_op_record_stays(ops@, digest@, sv, tombstones@, k + 1, ops@.len() as int);
            }
            return Err(Diagnostic::new("E_DUPLICATE", id, "duplicate operation identity"));
        }
        match get_entry(tombstones, id) {
            Some(t) => {
                if !(str_eq(t.function.as_str(), ops[k].1.as_str()) && str_eq(t.code_digest.as_str(), digest)) {
                    proof {
                        lemma_op_record_stays(ops@, digest@, sv, tombstones@, k + 1, ops@.len() as int);
                    }
                    return Err(Diagnostic::new("E_DUPLICATE", id, "operation identity belongs to different code"));
                }
            },
            None => {},
        }
        k = k + 1;
    }
    Ok(())
}

} // verus!
