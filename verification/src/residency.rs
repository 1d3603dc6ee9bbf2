//! Admission of content batches into the resident set: the checks on a
//! batch's keys and sizes, the byte count of resident blocks (each digest
//! counted once), and the least-recently-used eviction that makes room.
use crate::assoc::{assoc, contains_name, get_entry};
use crate::locale::clone_strings;
use crate::flow::reports;
use crate::format::{fails_with, Diagnostic, MAX_INPUT_BYTES};
use crate::table::names_in;
use crate::text::DiagText;
use vstd::prelude::*;

verus! {

/// Most blocks one batch may carry.
pub const MAX_CONTENT_BATCH_ITEMS: usize = 128;

/// What the residency ledger remembers of a block's use.
#[derive(Debug, Clone, Copy, PartialEq, Eq, Structural)]
pub struct UsageStamp {
    pub last_used: Option<u64>,
    pub speculative: bool,
    pub admitted: u64,
}

/// A resident block as eviction sees it, the blocks listed in key order.
#[derive(Debug, Clone)]
pub struct ResidentMeta {
    pub digest: String,
    pub bytes: u64,
    /// 0 for a speculative block that was never used, else 1.
    pub rank: u8,
    /// The time of its last use, else of its admission.
    pub age: u64,
    /// Neither in the incoming batch nor held by a lease.
    pub evictable: bool,
}

/// The eviction rank and age of a block: from its stamp, or, without one,
/// as a block used at time zero.
pub open spec fn lru_stamp(stamp: Option<UsageStamp>, speculative: bool) -> (u8, u64) {
    let s = match stamp {
        Some(s) => s,
        None => UsageStamp { last_used: Some(0), speculative, admitted: 0 },
    };
    (if s.speculative && s.last_used is None { 0u8 } else { 1u8 }, match s.last_used {
        Some(t) => t,
        None => s.admitted,
    })
}

/// A block that came in speculatively and was never used ranks before any
/// block that was used or came in on demand, so eviction takes it first
/// whatever the ages.
pub proof fn unused_prefetch_ranks_first(a: UsageStamp, b: Option<UsageStamp>, speculative_b: bool)
    requires
        a.speculative,
        a.last_used is None,
        match b {
            Some(s) => s.last_used is Some || !s.speculative,
            None => true,
        },
    ensures
        lru_stamp(Some(a), true).0 < lru_stamp(b, speculative_b).0,
{
}

/// The eviction rank and age of a block with this stamp.
pub fn lru_rank(stamp: Option<UsageStamp>, speculative: bool) -> (r: (u8, u64))
    ensures
        r == lru_stamp(stamp, speculative),
{
    let s = match stamp {
        Some(s) => s,
        None => UsageStamp { last_used: Some(0), speculative, admitted: 0 },
    };
    let rank: u8 = if s.speculative && s.last_used.is_none() { 0 } else { 1 };
    let age = match s.last_used {
        Some(t) => t,
        None => s.admitted,
    };
    (rank, age)
}

/// The error of a batch of blocks, each a key's label and its encoded size:
/// more than `MAX_CONTENT_BATCH_ITEMS` blocks; else, at the first block
/// that fails, a key seen before, a size outside `1..=MAX_INPUT_BYTES`, or
/// a running total above `MAX_INPUT_BYTES`.
pub open spec fn batch_error(items: Seq<(String, u64)>) -> Option<DiagText> {
    if items.len() > MAX_CONTENT_BATCH_ITEMS {
        Some(("E_LIMIT"@, "content"@, "content batch has more than 128 blocks"@))
    } else {
        batch_item_error(items, items.len() as int)
    }
}

/// The bytes of the first `k` blocks.
pub open spec fn batch_bytes(items: Seq<(String, u64)>, k: int) -> int
    decreases k,
{
    if k <= 0 {
        0
    } else {
        batch_bytes(items, k - 1) + items[k - 1].1
    }
}

/// The first error among the first `k` blocks of a batch.
pub open spec fn batch_item_error(items: Seq<(String, u64)>, k: int) -> Option<DiagText>
    decreases k,
{
    if k <= 0 {
        None
    } else {
        match batch_item_error(items, k - 1) {
            Some(d) => Some(d),
            None => {
                let (key, bytes) = items[k - 1];
                if exists|j: int| 0 <= j < k - 1 && (#[trigger] items[j]).0@ == key@ {
                    Some(("E_DUPLICATE"@, key@, "duplicate content key"@))
                } else if bytes == 0 || bytes > MAX_INPUT_BYTES {
                    Some(("E_LIMIT"@, "content"@, "content block size is outside 1..16 MiB"@))
                } else if batch_bytes(items, k) > MAX_INPUT_BYTES {
                    Some(("E_LIMIT"@, "content"@, "content batch exceeds 16 MiB"@))
                } else {
                    None
                }
            },
        }
    }
}

proof fn lemma_batch_error_stays(items: Seq<(String, u64)>, k: int, n: int)
    requires
        0 <= k <= n,
        batch_item_error(items, k) is Some,
    ensures
        batch_item_error(items, n) == batch_item_error(items, k),
    decreases n - k,
{
    if k < n {
        lemma_batch_error_stays(items, k, n - 1);
    }
}

/// Checks a batch before admission: at most `MAX_CONTENT_BATCH_ITEMS`
/// blocks, no key twice, each block of 1 to `MAX_INPUT_BYTES` bytes and all
/// of them together within `MAX_INPUT_BYTES`.
pub fn check_batch(items: &Vec<(String, u64)>) -> (r: Result<(), Diagnostic>)
    ensures
        reports(r, batch_error(items@)),
{
    if items.len() > MAX_CONTENT_BATCH_ITEMS {
        return Err(Diagnostic::new("E_LIMIT", "content", "content batch has more than 128 blocks"));
    }
    let mut seen: Vec<String> = Vec::new();
    let mut total: u64 = 0;
    let mut k: usize = 0;
    while k < items.len()
        invariant
            k <= items@.len(),
            items@.len() <= MAX_CONTENT_BATCH_ITEMS,
            seen@.len() == k,
            forall|j: int| 0 <= j < k ==> (#[trigger] seen@[j])@ == items@[j].0@,
            total == batch_bytes(items@, k as int),
            total <= MAX_INPUT_BYTES,
            batch_item_error(items@, k as int) is None,
        decreases items@.len() - k,
    {
        let key = &items[k].0;
        let bytes = items[k].1;
        if contains_name(&seen, key.as_str()) {
            proof {
                let j = choose|j: int| 0 <= j < seen@.len() && (#[trigger] seen@[j])@ == key@;
                assert(items@[j].0@ == key@);
                lemma_batch_error_stays(items@, k as int + 1, items@.len() as int);
            }
            return Err(Diagnostic::new("E_DUPLICATE", key.as_str(), "duplicate content key"));
        }
        proof {
            assert forall|j: int| 0 <= j < k implies (#[trigger] items@[j]).0@ != key@ by {
                assert(seen@[j]@ == items@[j].0@);
                if items@[j].0@ == key@ {
                    assert(names_in(seen@).contains(key@));
                }
            }
        }
        if bytes == 0 || bytes > MAX_INPUT_BYTES as u64 {
            proof {
                lemma_batch_error_stays(items@, k as int + 1, items@.len() as int);
            }
            return Err(Diagnostic::new("E_LIMIT", "content", "content block size is outside 1..16 MiB"));
        }
        total = total + bytes;
        if total > MAX_INPUT_BYTES as u64 {
            proof {
                lemma_batch_error_stays(items@, k as int + 1, items@.len() as int);
            }
            return Err(Diagnostic::new("E_LIMIT", "content", "content batch exceeds 16 MiB"));
        }
        seen.push(key.clone());
        k = k + 1;
    }
    Ok(())
}

/// The bytes of the first `n` blocks, every block counted.
pub open spec fn total_bytes(rs: Seq<ResidentMeta>, n: int) -> int
    decreases n,
{
    if n <= 0 {
        0
    } else {
        total_bytes(rs, n - 1) + rs[n - 1].bytes
    }
}

/// Block `i` is the first kept block among the first `i + 1` with its
/// digest.
pub open spec fn first_kept(rs: Seq<ResidentMeta>, keep: Seq<bool>, i: int) -> bool {
    keep[i] && forall|j: int| 0 <= j < i && keep[j] ==> (#[trigger] rs[j]).digest@ != rs[i].digest@
}

/// The bytes that the kept blocks among the first `n` occupy: each digest
/// counted once, with the size of its first kept block.
pub open spec fn kept_bytes(rs: Seq<ResidentMeta>, keep: Seq<bool>, n: int) -> int
    decreases n,
{
    if n <= 0 {
        0
    } else {
        kept_bytes(rs, keep, n - 1) + if first_kept(rs, keep, n - 1) { rs[n - 1].bytes as int } else { 0 }
    }
}

proof fn lemma_kept_within_total(rs: Seq<ResidentMeta>, keep: Seq<bool>, n: int)
    requires
        0 <= n,
    ensures
        0 <= kept_bytes(rs, keep, n) <= total_bytes(rs, n),
    decreases n,
{
    if n > 0 {
        lemma_kept_within_total(rs, keep, n - 1);
    }
}

/// The bytes the kept blocks occupy.
pub fn resident_bytes(rs: &Vec<ResidentMeta>, keep: &Vec<bool>) -> (r: u64)
    requires
        keep@.len() == rs@.len(),
        total_bytes(rs@, rs@.len() as int) <= u64::MAX,
    ensures
        r == kept_bytes(rs@, keep@, rs@.len() as int),
{
    let mut sum: u64 = 0;
    let mut i: usize = 0;
    while i < rs.len()
        invariant
            i <= rs@.len(),
            keep@.len() == rs@.len(),
            total_bytes(rs@, rs@.len() as int) <= u64::MAX,
            sum == kept_bytes(rs@, keep@, i as int),
        decreases rs@.len() - i,
    {
        if keep[i] {
            let mut first = true;
            let mut j: usize = 0;
            while j < i
                invariant
                    j <= i < rs@.len(),
                    keep@.len() == rs@.len(),
                    first == forall|q: int| 0 <= q < j && keep@[q] ==> (#[trigger] rs@[q]).digest@ != rs@[i as int].digest@,
                decreases i - j,
            {
                if keep[j] && crate::strings::str_eq(rs[j].digest.as_str(), rs[i].digest.as_str()) {
                    first = false;
                }
                j = j + 1;
            }
            if first {
                proof {
                    lemma_kept_within_total(rs@, keep@, i as int + 1);
                    lemma_total_monotone(rs@, i as int + 1, rs@.len() as int);
                }
                sum = sum + rs[i].bytes;
            }
        }
        i = i + 1;
    }
    sum
}

proof fn lemma_total_monotone(rs: Seq<ResidentMeta>, k: int, n: int)
    requires
        0 <= k <= n,
    ensures
        total_bytes(rs, k) <= total_bytes(rs, n),
    decreases n - k,
{
    if k < n {
        lemma_total_monotone(rs, k, n - 1);
    }
}

/// Block `i` comes before block `j` in eviction order: by rank, then age,
/// then key order.
pub open spec fn lru_before(rs: Seq<ResidentMeta>, i: int, j: int) -> bool {
    rs[i].rank < rs[j].rank || (rs[i].rank == rs[j].rank && (rs[i].age < rs[j].age || (rs[i].age == rs[j].age && i < j)))
}

/// Every block kept.
pub open spec fn keep_all(n: int) -> Seq<bool> {
    Seq::new(n as nat, |i: int| true)
}

/// Only the blocks that may not be evicted kept.
pub open spec fn keep_fixed(rs: Seq<ResidentMeta>) -> Seq<bool> {
    Seq::new(rs.len(), |i: int| !rs[i].evictable)
}

/// The kept set just before block `x` was evicted: blocks evicted before
/// it in eviction order are gone, the others kept.
pub open spec fn keep_before(rs: Seq<ResidentMeta>, keep: Seq<bool>, x: int) -> Seq<bool> {
    Seq::new(keep.len(), |j: int| keep[j] || !lru_before(rs, j, x))
}

/// `keep` is what eviction leaves within `budget`: the blocks that may not
/// be evicted stay; an evictable block before an evicted one in eviction
/// order is evicted too; the kept blocks fit the budget; and just before
/// each eviction they did not.
pub open spec fn evicts_in_order(rs: Seq<ResidentMeta>, keep: Seq<bool>, budget: u64) -> bool {
    &&& keep.len() == rs.len()
    &&& forall|i: int| 0 <= i < rs.len() && !(#[trigger] rs[i]).evictable ==> keep[i]
    &&& forall|i: int, j: int| #![trigger lru_before(rs, i, j)]
        0 <= i < rs.len() && 0 <= j < rs.len() && rs[i].evictable && !keep[j] && lru_before(rs, i, j) ==> !keep[i]
    &&& kept_bytes(rs, keep, rs.len() as int) <= budget
    &&& forall|x: int| 0 <= x < rs.len() && !(#[trigger] keep[x]) ==> kept_bytes(rs, keep_before(rs, keep, x), rs.len() as int) > budget
}

/// Evicting every evictable block in order never brings the set within
/// `budget`: not before any eviction, and not after the last.
pub open spec fn exhausts(rs: Seq<ResidentMeta>, budget: u64) -> bool {
    &&& kept_bytes(rs, keep_fixed(rs), rs.len() as int) > budget
    &&& forall|x: int| 0 <= x < rs.len() && (#[trigger] rs[x]).evictable
        ==> kept_bytes(rs, keep_before(rs, keep_fixed(rs), x), rs.len() as int) > budget
}

/// The number of kept evictable blocks among the first `k`.
pub open spec fn movable(rs: Seq<ResidentMeta>, keep: Seq<bool>, k: int) -> nat
    decreases k,
{
    if k <= 0 {
        0
    } else {
        movable(rs, keep, k - 1) + if rs[k - 1].evictable && keep[k - 1] { 1nat } else { 0nat }
    }
}

proof fn lemma_movable_drop(rs: Seq<ResidentMeta>, keep: Seq<bool>, b: int, k: int)
    requires
        0 <= b < k <= keep.len(),
        rs[b].evictable,
        keep[b],
    ensures
        movable(rs, keep.update(b, false), k) + 1 == movable(rs, keep, k),
    decreases k,
{
    if k - 1 > b {
        lemma_movable_drop(rs, keep, b, k - 1);
    } else {
        lemma_movable_same(rs, keep, b, b);
    }
}

proof fn lemma_movable_same(rs: Seq<ResidentMeta>, keep: Seq<bool>, b: int, k: int)
    requires
        0 <= k <= b < keep.len(),
    ensures
        movable(rs, keep.update(b, false), k) == movable(rs, keep, k),
    decreases k,
{
    if k > 0 {
        lemma_movable_same(rs, keep, b, k - 1);
    }
}

proof fn lemma_movable_bound(rs: Seq<ResidentMeta>, keep: Seq<bool>, k: int)
    requires
        0 <= k,
    ensures
        movable(rs, keep, k) <= k,
    decreases k,
{
    if k > 0 {
        lemma_movable_bound(rs, keep, k - 1);
    }
}

/// Plans the eviction that makes a resident set fit `budget`: nothing when
/// it fits; else, without leave to evict, `E_RESIDENCY_BUDGET`; else
/// evictable blocks go in eviction order until the rest fits, and where
/// even evicting all of them never fits, `E_RESIDENCY_BUDGET`. On success
/// the result marks the blocks that stay.
pub fn plan_eviction(rs: &Vec<ResidentMeta>, budget: u64, allow_eviction: bool) -> (r: Result<Vec<bool>, Diagnostic>)
    requires
        total_bytes(rs@, rs@.len() as int) <= u64::MAX,
    ensures
        kept_bytes(rs@, keep_all(rs@.len() as int), rs@.len() as int) <= budget ==> (r matches Ok(k) && k@ == keep_all(rs@.len() as int)),
        kept_bytes(rs@, keep_all(rs@.len() as int), rs@.len() as int) > budget && !allow_eviction
            ==> fails_with(r, "E_RESIDENCY_BUDGET"@, "runtime"@, "content exceeds residency budget"@),
        kept_bytes(rs@, keep_all(rs@.len() as int), rs@.len() as int) > budget && allow_eviction && exhausts(rs@, budget)
            ==> fails_with(r, "E_RESIDENCY_BUDGET"@, "runtime"@, "resident and pinned content exceeds budget"@),
        kept_bytes(rs@, keep_all(rs@.len() as int), rs@.len() as int) > budget && allow_eviction && !exhausts(rs@, budget)
            ==> (r matches Ok(k) && evicts_in_order(rs@, k@, budget)),
{
    let n = rs.len();
    let mut keep: Vec<bool> = Vec::new();
    let mut i: usize = 0;
    while i < n
        invariant
            n == rs@.len(),
            i <= n,
            keep@.len() == i,
            forall|j: int| 0 <= j < i ==> keep@[j],
        decreases n - i,
    {
        keep.push(true);
        i = i + 1;
    }
    proof {
        assert(keep@ =~= keep_all(n as int));
    }
    let used = resident_bytes(rs, &keep);
    if used <= budget {
        return Ok(keep);
    }
    if !allow_eviction {
        return Err(Diagnostic::new("E_RESIDENCY_BUDGET", "runtime", "content exceeds residency budget"));
    }
    loop
        invariant
            n == rs@.len(),
            keep@.len() == n,
            total_bytes(rs@, rs@.len() as int) <= u64::MAX,
            forall|j: int| 0 <= j < n && !(#[trigger] keep@[j]) ==> rs@[j].evictable,
            forall|j: int, q: int| #![trigger keep@[j], keep@[q]]
                0 <= j < n && 0 <= q < n && !keep@[j] && keep@[q] && rs@[q].evictable ==> lru_before(rs@, j, q),
            forall|x: int| 0 <= x < n && !(#[trigger] keep@[x]) ==> kept_bytes(rs@, keep_before(rs@, keep@, x), n as int) > budget,
            kept_bytes(rs@, keep_all(n as int), n as int) > budget,
            allow_eviction,
        ensures
            keep@.len() == n,
            forall|j: int| 0 <= j < n && !(#[trigger] keep@[j]) ==> rs@[j].evictable,
            forall|j: int, q: int| #![trigger keep@[j], keep@[q]]
                0 <= j < n && 0 <= q < n && !keep@[j] && keep@[q] && rs@[q].evictable ==> lru_before(rs@, j, q),
            forall|x: int| 0 <= x < n && !(#[trigger] keep@[x]) ==> kept_bytes(rs@, keep_before(rs@, keep@, x), n as int) > budget,
            kept_bytes(rs@, keep@, n as int) <= budget,
            !exhausts(rs@, budget),
        decreases movable(rs@, keep@, n as int),
    {
        let mut best: usize = n;
        let mut j: usize = 0;
        while j < n
            invariant
                n == rs@.len(),
                keep@.len() == n,
                j <= n,
                best == n || (best < j && rs@[best as int].evictable && keep@[best as int]),
                best == n ==> forall|q: int| 0 <= q < j ==> !(rs@[q].evictable && #[trigger] keep@[q]),
                best < n ==> forall|q: int| 0 <= q < j && rs@[q].evictable && #[trigger] keep@[q] && q != best ==> lru_before(rs@, best as int, q),
            decreases n - j,
        {
            if rs[j].evictable && keep[j] {
                if best == n {
                    best = j;
                } else if rs[j].rank < rs[best].rank || (rs[j].rank == rs[best].rank && rs[j].age < rs[best].age) {
                    best = j;
                }
            }
            j = j + 1;
        }
        let used = resident_bytes(rs, &keep);
        if used <= budget {
            proof {
                if best == n {
                    assert(keep@ =~= keep_fixed(rs@));
                } else {
                    assert forall|q: int| 0 <= q < n implies keep@[q] == keep_before(rs@, keep_fixed(rs@), best as int)[q] by {
                        if !keep@[q] {
                            assert(lru_before(rs@, q, best as int));
                        } else if rs@[q].evictable && q != best {
                            assert(lru_before(rs@, best as int, q));
                        }
                    }
                    assert(keep@ =~= keep_before(rs@, keep_fixed(rs@), best as int));
                    assert(rs@[best as int].evictable);
                }
            }
            break;
        }
        if best == n {
            proof {
                assert(keep@ =~= keep_fixed(rs@));
                assert forall|x: int| 0 <= x < rs@.len() && (#[trigger] rs@[x]).evictable
                    implies kept_bytes(rs@, keep_before(rs@, keep_fixed(rs@), x), rs@.len() as int) > budget by {
                    assert(!keep@[x]);
                }
            }
            return Err(Diagnostic::new("E_RESIDENCY_BUDGET", "runtime", "resident and pinned content exceeds budget"));
        }
        let ghost before = keep@;
        proof {
            lemma_movable_drop(rs@, keep@, best as int, n as int);
        }
        keep.set(best, false);
        proof {
            assert forall|x: int| 0 <= x < n && !(#[trigger] keep@[x])
                implies kept_bytes(rs@, keep_before(rs@, keep@, x), n as int) > budget by {
                if x == best {
                    assert(keep_before(rs@, keep@, x) =~= before);
                } else {
                    assert(keep_before(rs@, keep@, x) =~= keep_before(rs@, before, x));
                }
            }
        }
    }
    proof {
        assert forall|i: int, j: int| #![trigger lru_before(rs@, i, j)]
            0 <= i < rs@.len() && 0 <= j < rs@.len() && rs@[i].evictable && !keep@[j] && lru_before(rs@, i, j) implies !keep@[i] by {
            if keep@[i] {
                assert(lru_before(rs@, j, i));
            }
        }
    }
    Ok(keep)
}


/// A resident block of the ledger: its digest, encoded size, generation and
/// whether it came in speculatively.
#[derive(Debug, Clone)]
pub struct ResidentBlock {
    pub digest: String,
    pub encoded_bytes: u64,
    pub generation: u64,
    pub speculative: bool,
}

/// The usage stamp of generation `g`: the first entry for it.
pub open spec fn stamp_of(usage: Seq<(u64, UsageStamp)>, g: u64) -> Option<UsageStamp>
    decreases usage.len(),
{
    if usage.len() == 0 {
        None
    } else if usage[0].0 == g {
        Some(usage[0].1)
    } else {
        stamp_of(usage.drop_first(), g)
    }
}

fn find_stamp(usage: &Vec<(u64, UsageStamp)>, g: u64) -> (r: Option<UsageStamp>)
    ensures
        r == stamp_of(usage@, g),
{
    let mut i: usize = 0;
    assert(usage@.subrange(0, usage@.len() as int) =~= usage@);
    while i < usage.len()
        invariant
            i <= usage@.len(),
            stamp_of(usage@, g) == stamp_of(usage@.subrange(i as int, usage@.len() as int), g),
        decreases usage@.len() - i,
    {
        assert(usage@.subrange(i as int, usage@.len() as int).drop_first() =~= usage@.subrange(i + 1, usage@.len() as int));
        if usage[i].0 == g {
            return Some(usage[i].1);
        }
        i = i + 1;
    }
    None
}

/// What eviction sees of resident block `b` under `key`: its digest and
/// size, the rank and age of its stamp, and whether it is neither among the
/// incoming keys nor of a pinned generation.
pub open spec fn candidate(key: Seq<char>, b: ResidentBlock, incoming: Seq<String>, pinned: Seq<u64>, usage: Seq<(u64, UsageStamp)>, m: ResidentMeta) -> bool {
    &&& m.digest@ == b.digest@
    &&& m.bytes == b.encoded_bytes
    &&& (m.rank, m.age) == lru_stamp(stamp_of(usage, b.generation), b.speculative)
    &&& m.evictable == (!names_in(incoming).contains(key) && !pinned.contains(b.generation))
}

/// The eviction view of the resident blocks, in their key order.
pub fn eviction_candidates(
    records: &Vec<(String, ResidentBlock)>,
    incoming: &Vec<String>,
    pinned: &Vec<u64>,
    usage: &Vec<(u64, UsageStamp)>,
) -> (r: Vec<ResidentMeta>)
    ensures
        r@.len() == records@.len(),
        forall|i: int| 0 <= i < records@.len() ==> candidate(records@[i].0@, records@[i].1, incoming@, pinned@, usage@, #[trigger] r@[i]),
{
    let mut r: Vec<ResidentMeta> = Vec::new();
    let mut i: usize = 0;
    while i < records.len()
        invariant
            i <= records@.len(),
            r@.len() == i,
            forall|j: int| 0 <= j < i ==> candidate(records@[j].0@, records@[j].1, incoming@, pinned@, usage@, #[trigger] r@[j]),
        decreases records@.len() - i,
    {
        let (key, b) = (&records[i].0, &records[i].1);
        let (rank, age) = lru_rank(find_stamp(usage, b.generation), b.speculative);
        let mut is_pinned = false;
        let mut q: usize = 0;
        while q < pinned.len()
            invariant
                q <= pinned@.len(),
                is_pinned == exists|t: int| 0 <= t < q && pinned@[t] == b.generation,
            decreases pinned@.len() - q,
        {
            if pinned[q] == b.generation {
                is_pinned = true;
            }
            q = q + 1;
        }
        proof {
            if is_pinned {
                let t = choose|t: int| 0 <= t < pinned@.len() && pinned@[t] == b.generation;
                assert(pinned@.contains(b.generation));
            }
        }
        let evictable = !contains_name(incoming, key.as_str()) && !is_pinned;
        r.push(ResidentMeta { digest: b.digest.clone(), bytes: b.encoded_bytes, rank, age, evictable });
        i = i + 1;
    }
    r
}

/// What a content lease tells its holder: its identity, its owner, the
/// keys it pins and their bytes.
#[derive(Debug, Clone)]
pub struct LeaseInfo {
    pub id: u64,
    pub owner: String,
    pub keys: Vec<String>,
    pub resident_bytes: u64,
}

/// A lease the residency ledger holds: what it tells its holder and the
/// generation it pins under each key.
#[derive(Debug, Clone)]
pub struct ContentLease {
    info: LeaseInfo,
    generations: Vec<(String, u64)>,
}

impl ContentLease {
    /// A lease pinning `generations`.
    pub fn new(info: LeaseInfo, generations: Vec<(String, u64)>) -> (l: ContentLease)
        ensures
            l.info_of() == info,
            l.generations_of() == generations@,
    {
        ContentLease { info, generations }
    }

    /// What the lease tells its holder.
    pub closed spec fn info_of(&self) -> LeaseInfo {
        self.info
    }

    /// The generation the lease pins under each key.
    pub closed spec fn generations_of(&self) -> Seq<(String, u64)> {
        self.generations@
    }

    /// What the lease tells its holder.
    pub fn info(&self) -> (r: &LeaseInfo)
        ensures
            *r == self.info_of(),
    {
        &self.info
    }
}

/// One resident block of a residency report, with the owners of the leases
/// that pin it.
#[derive(Debug, Clone)]
pub struct ResidencyEntry {
    pub key: String,
    pub digest: String,
    pub encoded_bytes: u64,
    pub pinned_by: Vec<String>,
}

/// What is resident, what is pinned and by whom, against the budget.
#[derive(Debug, Clone)]
pub struct ResidencyReport {
    pub resident_blocks: usize,
    pub pinned_blocks: usize,
    pub lease_count: usize,
    pub resident_bytes: u64,
    pub pinned_bytes: u64,
    pub unpinned_bytes: u64,
    pub budget_bytes: u64,
    pub blocks: Vec<ResidencyEntry>,
    pub leases: Vec<LeaseInfo>,
}

/// Block `b` belongs to no retired generation.
pub open spec fn is_current(retired: Seq<u64>, b: ResidentBlock) -> bool {
    !retired.contains(b.generation)
}

/// Lease `l` still pins some current block: for one of its keys the
/// resident block under that key is current and of the generation it pins.
pub open spec fn lease_active(records: Seq<(String, ResidentBlock)>, retired: Seq<u64>, l: ContentLease) -> bool {
    exists|j: int| 0 <= j < l.generations_of().len() && (match assoc(records, (#[trigger] l.generations_of()[j]).0@) {
        Some(b) => b.generation == l.generations_of()[j].1 && is_current(retired, b),
        None => false,
    })
}

/// Lease `l` pins generation `g` under `key`.
pub open spec fn lease_pins(l: ContentLease, key: Seq<char>, g: u64) -> bool {
    assoc(l.generations_of(), key) == Some(g)
}

/// Some active lease pins generation `g` under `key`.
pub open spec fn block_pinned(records: Seq<(String, ResidentBlock)>, retired: Seq<u64>, leases: Seq<ContentLease>, key: Seq<char>, g: u64) -> bool {
    exists|l: int| 0 <= l < leases.len() && lease_active(records, retired, #[trigger] leases[l]) && lease_pins(leases[l], key, g)
}

/// The owners of the active leases that pin generation `g` under `key`.
pub open spec fn pinning_owners(records: Seq<(String, ResidentBlock)>, retired: Seq<u64>, leases: Seq<ContentLease>, key: Seq<char>, g: u64) -> Set<Seq<char>> {
    Set::new(|o: Seq<char>| exists|l: int| 0 <= l < leases.len() && lease_active(records, retired, #[trigger] leases[l])
        && lease_pins(leases[l], key, g) && leases[l].info_of().owner@ == o)
}

/// The first `n` records that are current, in order.
pub open spec fn current_records(records: Seq<(String, ResidentBlock)>, retired: Seq<u64>, n: int) -> Seq<(String, ResidentBlock)>
    decreases n,
{
    if n <= 0 {
        Seq::empty()
    } else {
        let rest = current_records(records, retired, n - 1);
        if is_current(retired, records[n - 1].1) {
            rest.push(records[n - 1])
        } else {
            rest
        }
    }
}

/// The active leases among the first `n`, in order.
pub open spec fn active_leases(records: Seq<(String, ResidentBlock)>, retired: Seq<u64>, leases: Seq<ContentLease>, n: int) -> Seq<ContentLease>
    decreases n,
{
    if n <= 0 {
        Seq::empty()
    } else {
        let rest = active_leases(records, retired, leases, n - 1);
        if lease_active(records, retired, leases[n - 1]) {
            rest.push(leases[n - 1])
        } else {
            rest
        }
    }
}

/// Which records count: the current ones, or the current pinned ones.
pub open spec fn report_mask(records: Seq<(String, ResidentBlock)>, retired: Seq<u64>, leases: Seq<ContentLease>, pinned_only: bool) -> Seq<bool> {
    Seq::new(records.len(), |i: int| is_current(retired, records[i].1)
        && (!pinned_only || block_pinned(records, retired, leases, records[i].0@, records[i].1.generation)))
}

/// The records as the byte count sees them.
pub open spec fn report_metas(records: Seq<(String, ResidentBlock)>) -> Seq<ResidentMeta> {
    records.map_values(|r: (String, ResidentBlock)| ResidentMeta { digest: r.1.digest, bytes: r.1.encoded_bytes, rank: 0, age: 0, evictable: false })
}

/// How many of the first `n` entries of `mask` are set.
pub open spec fn count_set(mask: Seq<bool>, n: int) -> nat
    decreases n,
{
    if n <= 0 {
        0
    } else {
        count_set(mask, n - 1) + if mask[n - 1] { 1nat } else { 0nat }
    }
}

/// `e` reports resident block `r` pinned by exactly the owners `owners`,
/// each once.
pub open spec fn entry_reports(e: ResidencyEntry, r: (String, ResidentBlock), owners: Set<Seq<char>>) -> bool {
    &&& e.key@ == r.0@
    &&& e.digest@ == r.1.digest@
    &&& e.encoded_bytes == r.1.encoded_bytes
    &&& names_in(e.pinned_by@) == owners
    &&& forall|a: int, b: int| 0 <= a < b < e.pinned_by@.len() ==> e.pinned_by@[a]@ != e.pinned_by@[b]@
}

fn is_retired(retired: &Vec<u64>, g: u64) -> (r: bool)
    ensures
        r == retired@.contains(g),
{
    let mut i: usize = 0;
    while i < retired.len()
        invariant
            i <= retired@.len(),
            forall|j: int| 0 <= j < i ==> retired@[j] != g,
        decreases retired@.len() - i,
    {
        if retired[i] == g {
            proof {
                assert(retired@[i as int] == g);
            }
            return true;
        }
        i = i + 1;
    }
    false
}

fn lease_is_active(records: &Vec<(String, ResidentBlock)>, retired: &Vec<u64>, l: &ContentLease) -> (r: bool)
    ensures
        r == lease_active(records@, retired@, *l),
{
    let mut j: usize = 0;
    while j < l.generations.len()
        invariant
            j <= l.generations@.len(),
            forall|q: int| 0 <= q < j ==> !(match assoc(records@, (#[trigger] l.generations@[q]).0@) {
                Some(b) => b.generation == l.generations@[q].1 && is_current(retired@, b),
                None => false,
            }),
        decreases l.generations@.len() - j,
    {
        match get_entry(records, l.generations[j].0.as_str()) {
            Some(b) => {
                if b.generation == l.generations[j].1 && !is_retired(retired, b.generation) {
                    proof {
                        assert(l.generations_of()[j as int] == l.generations@[j as int]);
                    }
                    return true;
                }
            },
            None => {},
        }
        j = j + 1;
    }
    proof {
        assert forall|q: int| 0 <= q < l.generations_of().len() implies !(match assoc(records@, (#[trigger] l.generations_of()[q]).0@) {
            Some(b) => b.generation == l.generations_of()[q].1 && is_current(retired@, b),
            None => false,
        }) by {
            assert(l.generations_of()[q] == l.generations@[q]);
        }
    }
    false
}

/// Two lease descriptions say the same.
pub open spec fn same_info(a: LeaseInfo, b: LeaseInfo) -> bool {
    a.id == b.id && a.owner@ == b.owner@ && a.keys@ == b.keys@ && a.resident_bytes == b.resident_bytes
}

fn copy_info(i: &LeaseInfo) -> (r: LeaseInfo)
    ensures
        same_info(r, *i),
{
    LeaseInfo { id: i.id, owner: i.owner.clone(), keys: clone_strings(&i.keys), resident_bytes: i.resident_bytes }
}

/// Reports the resident blocks that belong to no retired generation, which
/// of them the active leases pin and by whom, the active leases, and the
/// bytes resident, pinned and unpinned (each digest counted once) against
/// the budget.
pub fn residency_report(records: &Vec<(String, ResidentBlock)>, retired: &Vec<u64>, leases: &Vec<ContentLease>, budget: u64) -> (r: ResidencyReport)
    requires
        total_bytes(report_metas(records@), records@.len() as int) <= u64::MAX,
    ensures
        r.resident_blocks == count_set(report_mask(records@, retired@, leases@, false), records@.len() as int),
        r.pinned_blocks == count_set(report_mask(records@, retired@, leases@, true), records@.len() as int),
        r.lease_count == active_leases(records@, retired@, leases@, leases@.len() as int).len(),
        r.resident_bytes == kept_bytes(report_metas(records@), report_mask(records@, retired@, leases@, false), records@.len() as int),
        r.pinned_bytes == kept_bytes(report_metas(records@), report_mask(records@, retired@, leases@, true), records@.len() as int),
        r.unpinned_bytes == if r.resident_bytes >= r.pinned_bytes { (r.resident_bytes - r.pinned_bytes) as u64 } else { 0u64 },
        r.budget_bytes == budget,
        r.leases@.len() == active_leases(records@, retired@, leases@, leases@.len() as int).len(),
        forall|m: int| 0 <= m < r.leases@.len() ==> same_info(#[trigger] r.leases@[m], active_leases(records@, retired@, leases@, leases@.len() as int)[m].info_of()),
        r.blocks@.len() == current_records(records@, retired@, records@.len() as int).len(),
        forall|m: int| 0 <= m < r.blocks@.len() ==> {
            let c = #[trigger] current_records(records@, retired@, records@.len() as int)[m];
            entry_reports(r.blocks@[m], c, pinning_owners(records@, retired@, leases@, c.0@, c.1.generation))
        },
{
    let ghost recs = records@;
    let ghost act = |l: ContentLease| lease_active(recs, retired@, l);
    // Which leases are active.
    let mut active: Vec<bool> = Vec::new();
    let mut infos: Vec<LeaseInfo> = Vec::new();
    let mut a: usize = 0;
    while a < leases.len()
        invariant
            a <= leases@.len(),
            recs == records@,
            active@.len() == a,
            forall|q: int| 0 <= q < a ==> active@[q] == lease_active(recs, retired@, #[trigger] leases@[q]),
            infos@.len() == active_leases(recs, retired@, leases@, a as int).len(),
            forall|m: int| 0 <= m < infos@.len() ==> same_info(#[trigger] infos@[m], active_leases(recs, retired@, leases@, a as int)[m].info_of()),
        decreases leases@.len() - a,
    {
        let on = lease_is_active(records, retired, &leases[a]);
        let ghost before = infos@;
        if on {
            infos.push(copy_info(&leases[a].info));
        }
        active.push(on);
        proof {
            let la = active_leases(recs, retired@, leases@, a as int);
            assert(active_leases(recs, retired@, leases@, a + 1) == if on { la.push(leases@[a as int]) } else { la });
            assert forall|m: int| 0 <= m < infos@.len() implies same_info(#[trigger] infos@[m], active_leases(recs, retired@, leases@, a + 1)[m].info_of()) by {
                if m < before.len() {
                    assert(infos@[m] == before[m]);
                }
            }
        }
        a = a + 1;
    }
    // The blocks.
    let mut metas: Vec<ResidentMeta> = Vec::new();
    let mut current: Vec<bool> = Vec::new();
    let mut pinned_mask: Vec<bool> = Vec::new();
    let mut blocks: Vec<ResidencyEntry> = Vec::new();
    let mut i: usize = 0;
    while i < records.len()
        invariant
            i <= records@.len(),
            recs == records@,
            active@.len() == leases@.len(),
            forall|q: int| 0 <= q < leases@.len() ==> active@[q] == lease_active(recs, retired@, #[trigger] leases@[q]),
            metas@ == report_metas(recs).subrange(0, i as int),
            current@ == report_mask(recs, retired@, leases@, false).subrange(0, i as int),
            pinned_mask@ == report_mask(recs, retired@, leases@, true).subrange(0, i as int),
            blocks@.len() == current_records(recs, retired@, i as int).len(),
            forall|m: int| 0 <= m < blocks@.len() ==> {
                let c = #[trigger] current_records(recs, retired@, i as int)[m];
                entry_reports(blocks@[m], c, pinning_owners(recs, retired@, leases@, c.0@, c.1.generation))
            },
        decreases records@.len() - i,
    {
        let key = &records[i].0;
        let b = &records[i].1;
        let cur = !is_retired(retired, b.generation);
        let mut owners: Vec<String> = Vec::new();
        let mut pinned = false;
        if cur {
            let mut l: usize = 0;
            while l < leases.len()
                invariant
                    l <= leases@.len(),
                    i < recs.len(),
                    recs == records@,
                    *key == recs[i as int].0,
                    *b == recs[i as int].1,
                    active@.len() == leases@.len(),
                    forall|q: int| 0 <= q < leases@.len() ==> active@[q] == lease_active(recs, retired@, #[trigger] leases@[q]),
                    forall|o: Seq<char>| names_in(owners@).contains(o) <==> exists|q: int| 0 <= q < l && lease_active(recs, retired@, #[trigger] leases@[q])
                        && lease_pins(leases@[q], key@, b.generation) && leases@[q].info_of().owner@ == o,
                    forall|x: int, y: int| 0 <= x < y < owners@.len() ==> owners@[x]@ != owners@[y]@,
                    pinned == exists|q: int| 0 <= q < l && lease_active(recs, retired@, #[trigger] leases@[q]) && lease_pins(leases@[q], key@, b.generation),
                decreases leases@.len() - l,
            {
                let ghost before_owners = owners@;
                let pins_here = match get_entry(&leases[l].generations, key.as_str()) {
                    Some(g) => *g == b.generation,
                    None => false,
                };
                proof {
                    assert(leases@[l as int].generations_of() == leases@[l as int].generations@);
                }
                if active[l] && pins_here {
                    pinned = true;
                    let owner = &leases[l].info.owner;
                    if !contains_name(&owners, owner.as_str()) {
                        let ghost before = owners@;
                        owners.push(owner.clone());
                        proof {
                            assert forall|x: int, y: int| 0 <= x < y < owners@.len() implies owners@[x]@ != owners@[y]@ by {
                                if y == before.len() {
                                    assert(owners@[x] == before[x]);
                                    assert(names_in(before).contains(before[x]@));
                                } else {
                                    assert(owners@[x] == before[x] && owners@[y] == before[y]);
                                }
                            }
                            assert forall|o: Seq<char>| names_in(owners@).contains(o) <==> names_in(before).contains(o) || o == owner@ by {
                                if names_in(owners@).contains(o) {
                                    let x = choose|x: int| 0 <= x < owners@.len() && (#[trigger] owners@[x])@ == o;
                                    if x < before.len() {
                                        assert(owners@[x] == before[x]);
                                    }
                                }
                                if names_in(before).contains(o) {
                                    let x = choose|x: int| 0 <= x < before.len() && (#[trigger] before[x])@ == o;
                                    assert(owners@[x] == before[x]);
                                }
                                if o == owner@ {
                                    assert(owners@[before.len() as int]@ == o);
                                }
                            }
                        }
                    }
                    proof {
                        assert(lease_active(recs, retired@, leases@[l as int]) && lease_pins(leases@[l as int], key@, b.generation)
                            && leases@[l as int].info_of().owner@ == owner@);
                        assert(names_in(owners@).contains(owner@)) by {
                            if names_in(before_owners).contains(owner@) {
                                let x = choose|x: int| 0 <= x < before_owners.len() && (#[trigger] before_owners[x])@ == owner@;
                                assert(owners@[x] == before_owners[x]);
                            }
                        }
                    }
                }
                proof {
                    let hit = active@[l as int] && pins_here;
                    assert(hit == (lease_active(recs, retired@, leases@[l as int]) && lease_pins(leases@[l as int], key@, b.generation)));
                    assert forall|o: Seq<char>| names_in(owners@).contains(o) <==> exists|q: int| 0 <= q < l + 1 && lease_active(recs, retired@, #[trigger] leases@[q])
                        && lease_pins(leases@[q], key@, b.generation) && leases@[q].info_of().owner@ == o by {
                        if !hit {
                            assert(owners@ == before_owners);
                            if exists|q: int| 0 <= q < l + 1 && lease_active(recs, retired@, #[trigger] leases@[q])
                                && lease_pins(leases@[q], key@, b.generation) && leases@[q].info_of().owner@ == o {
                                let q = choose|q: int| 0 <= q < l + 1 && lease_active(recs, retired@, #[trigger] leases@[q])
                                    && lease_pins(leases@[q], key@, b.generation) && leases@[q].info_of().owner@ == o;
                                assert(q < l);
                            }
                        } else {
                            if names_in(owners@).contains(o) && o != leases@[l as int].info_of().owner@ {
                                let x = choose|x: int| 0 <= x < owners@.len() && (#[trigger] owners@[x])@ == o;
                                if x < before_owners.len() {
                                    assert(owners@[x] == before_owners[x]);
                                    assert(names_in(before_owners).contains(o));
                                } else {
                                    assert(owners@[x]@ == leases@[l as int].info_of().owner@);
                                }
                            }
                            if exists|q: int| 0 <= q < l && lease_active(recs, retired@, #[trigger] leases@[q])
                                && lease_pins(leases@[q], key@, b.generation) && leases@[q].info_of().owner@ == o {
                                assert(names_in(before_owners).contains(o));
                                let x = choose|x: int| 0 <= x < before_owners.len() && (#[trigger] before_owners[x])@ == o;
                                assert(owners@[x] == before_owners[x]);
                            }
                        }
                    }
                }
                l = l + 1;
            }
        }
        let ghost cr = current_records(recs, retired@, i as int);
        proof {
            assert(cur == is_current(retired@, recs[i as int].1));
            if cur {
                assert(pinned == block_pinned(recs, retired@, leases@, key@, b.generation));
                assert(names_in(owners@) =~= pinning_owners(recs, retired@, leases@, key@, b.generation));
            }
        }
        metas.push(ResidentMeta { digest: b.digest.clone(), bytes: b.encoded_bytes, rank: 0, age: 0, evictable: false });
        current.push(cur);
        pinned_mask.push(cur && pinned);
        if cur {
            blocks.push(ResidencyEntry { key: key.clone(), digest: b.digest.clone(), encoded_bytes: b.encoded_bytes, pinned_by: owners });
        }
        proof {
            assert(metas@ =~= report_metas(recs).subrange(0, i + 1));
            assert(current@ =~= report_mask(recs, retired@, leases@, false).subrange(0, i + 1));
            if cur {
                assert(pinned_mask@ =~= report_mask(recs, retired@, leases@, true).subrange(0, i + 1));
            } else {
                assert(pinned_mask@ =~= report_mask(recs, retired@, leases@, true).subrange(0, i + 1));
            }
            let cr2 = current_records(recs, retired@, i + 1);
            assert forall|m: int| 0 <= m < blocks@.len() implies {
                let c = #[trigger] current_records(recs, retired@, i + 1)[m];
                entry_reports(blocks@[m], c, pinning_owners(recs, retired@, leases@, c.0@, c.1.generation))
            } by {
                if m < cr.len() {
                    assert(cr2[m] == cr[m]);
                }
            }
        }
        i = i + 1;
    }
    proof {
        assert(metas@ =~= report_metas(recs));
        assert(current@ =~= report_mask(recs, retired@, leases@, false));
        assert(pinned_mask@ =~= report_mask(recs, retired@, leases@, true));
    }
    let resident = resident_bytes(&metas, &current);
    let pinned_bytes = resident_bytes(&metas, &pinned_mask);
    let resident_count = count_true(&current);
    let pinned_count = count_true(&pinned_mask);
    let lease_count = infos.len();
    ResidencyReport {
        resident_blocks: resident_count,
        pinned_blocks: pinned_count,
        lease_count,
        resident_bytes: resident,
        pinned_bytes,
        unpinned_bytes: if resident >= pinned_bytes { resident - pinned_bytes } else { 0 },
        budget_bytes: budget,
        blocks,
        leases: infos,
    }
}

fn count_true(mask: &Vec<bool>) -> (r: usize)
    ensures
        r == count_set(mask@, mask@.len() as int),
{
    let mut n: usize = 0;
    let mut i: usize = 0;
    while i < mask.len()
        invariant
            i <= mask@.len(),
            n == count_set(mask@, i as int),
            n <= i,
        decreases mask@.len() - i,
    {
        if mask[i] {
            n = n + 1;
        }
        i = i + 1;
    }
    n
}

} // verus!
