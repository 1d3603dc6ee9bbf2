//! Joint admission of resource groups against one byte budget, with pinned
//! reservations. Physical allocation stays with the device owner.
use crate::format::{fails_with, Diagnostic};
use crate::strings::{concat, decimal, decimal_text, owned, str_eq};
use vstd::multiset::Multiset;
use vstd::prelude::*;
use vstd::string::*;

verus! {

/// The generations a prepared resource group was made for.
#[derive(Debug, Clone, Copy, PartialEq, Eq, Structural)]
pub struct Generation {
    pub session: u32,
    pub device: u32,
    pub surface: u32,
    pub typography: u32,
    pub language: u32,
}

struct LedgerEntry {
    id: String,
    bytes: u64,
    pins: usize,
}

/// Byte budget shared by the resource groups that are being prepared or used.
/// An asset is charged once however many groups pin it.
pub struct BudgetLedger {
    limit: u64,
    used: u64,
    total_pins: usize,
    items: Vec<LedgerEntry>,
    live: Ghost<Seq<(nat, Seq<Seq<char>>)>>,
    next: Ghost<nat>,
}

/// A pin on every asset of one admitted group; give it back with
/// [`BudgetLedger::release`] to the ledger that issued it.
pub struct Reservation {
    ids: Vec<String>,
    ticket: Ghost<nat>,
}

/// The assets of `keys`, each counted as often as it is listed.
pub open spec fn keys_bag(keys: Seq<Seq<char>>) -> Multiset<Seq<char>>
    decreases keys.len(),
{
    if keys.len() == 0 {
        Multiset::empty()
    } else {
        keys_bag(keys.drop_last()).insert(keys.last())
    }
}

/// The assets pinned by the outstanding reservations `live`, each counted once
/// for every reservation that pins it.
pub open spec fn live_bag(live: Seq<(nat, Seq<Seq<char>>)>) -> Multiset<Seq<char>>
    decreases live.len(),
{
    if live.len() == 0 {
        Multiset::empty()
    } else {
        live_bag(live.drop_last()).add(keys_bag(live.last().1))
    }
}

/// The reservations `live` carry distinct tickets, all below `next`.
pub open spec fn tickets_fresh(live: Seq<(nat, Seq<Seq<char>>)>, next: nat) -> bool {
    &&& forall|i: int| 0 <= i < live.len() ==> (#[trigger] live[i]).0 < next
    &&& forall|i: int, j: int| 0 <= i < j < live.len() ==> (#[trigger] live[i]).0 != (#[trigger] live[j]).0
}

proof fn lemma_keys_bag(keys: Seq<Seq<char>>, k: Seq<char>)
    requires
        forall|i: int, j: int| 0 <= i < j < keys.len() ==> keys[i] != keys[j],
    ensures
        keys_bag(keys).count(k) == if keys.contains(k) { 1nat } else { 0nat },
        keys_bag(keys).len() == keys.len(),
    decreases keys.len(),
{
    if keys.len() > 0 {
        let p = keys.drop_last();
        lemma_keys_bag(p, k);
        if p.contains(k) {
            let c = choose|c: int| 0 <= c < p.len() && p[c] == k;
            assert(keys[c] == k);
            assert(keys.contains(k));
            assert(keys.last() != k);
        } else if keys.contains(k) {
            let c = choose|c: int| 0 <= c < keys.len() && keys[c] == k;
            if c < keys.len() - 1 {
                assert(p[c] == k);
            }
        } else {
            assert(keys[keys.len() - 1] != k);
        }
    }
}

proof fn lemma_live_bag_remove(live: Seq<(nat, Seq<Seq<char>>)>, i: int)
    requires
        0 <= i < live.len(),
    ensures
        live_bag(live) == live_bag(live.remove(i)).add(keys_bag(live[i].1)),
    decreases live.len(),
{
    if i == live.len() - 1 {
        assert(live.remove(i) =~= live.drop_last());
    } else {
        let p = live.drop_last();
        lemma_live_bag_remove(p, i);
        assert(live.remove(i).drop_last() =~= p.remove(i));
        assert(live.remove(i).last() == live.last());
        assert(live_bag(live) =~= live_bag(live.remove(i)).add(keys_bag(live[i].1)));
    }
}

/// Entry `k` of a list of assets and their costs.
pub open spec fn asset_cost(assets: Seq<(String, u64)>, k: Seq<char>) -> Option<u64> {
    if exists|i: int| 0 <= i < assets.len() && (#[trigger] assets[i]).0@ == k {
        Some(assets[choose|i: int| 0 <= i < assets.len() && (#[trigger] assets[i]).0@ == k].1)
    } else {
        None
    }
}

/// No asset is listed twice.
pub open spec fn assets_unique(assets: Seq<(String, u64)>) -> bool {
    forall|i: int, j: int| 0 <= i < j < assets.len() ==> assets[i].0@ != assets[j].0@
}

/// The identities of a list of assets, in order.
pub open spec fn asset_keys(assets: Seq<(String, u64)>) -> Seq<Seq<char>> {
    assets.map_values(|a: (String, u64)| a.0@)
}

spec fn lookup(items: Seq<LedgerEntry>, k: Seq<char>) -> Option<(u64, nat)> {
    if exists|i: int| 0 <= i < items.len() && (#[trigger] items[i]).id@ == k {
        let i = choose|i: int| 0 <= i < items.len() && (#[trigger] items[i]).id@ == k;
        Some((items[i].bytes, items[i].pins as nat))
    } else {
        None
    }
}

spec fn sum_bytes(items: Seq<LedgerEntry>) -> nat
    decreases items.len(),
{
    if items.len() == 0 {
        0
    } else {
        sum_bytes(items.drop_last()) + items.last().bytes as nat
    }
}

spec fn sum_pins(items: Seq<LedgerEntry>) -> nat
    decreases items.len(),
{
    if items.len() == 0 {
        0
    } else {
        sum_pins(items.drop_last()) + items.last().pins as nat
    }
}

spec fn ids_unique(items: Seq<LedgerEntry>) -> bool {
    forall|i: int, j: int| 0 <= i < j < items.len() ==> items[i].id@ != items[j].id@
}

proof fn lemma_lookup_at(items: Seq<LedgerEntry>, i: int)
    requires
        ids_unique(items),
        0 <= i < items.len(),
    ensures
        lookup(items, items[i].id@) == Some((items[i].bytes, items[i].pins as nat)),
{
    let k = items[i].id@;
    let c = choose|c: int| 0 <= c < items.len() && (#[trigger] items[c]).id@ == k;
    assert(0 <= c < items.len() && items[c].id@ == k);
    if c != i {
        if c < i {
            assert(items[c].id@ != items[i].id@);
        } else {
            assert(items[i].id@ != items[c].id@);
        }
    }
}

proof fn lemma_sums_update(items: Seq<LedgerEntry>, i: int, e: LedgerEntry)
    requires
        0 <= i < items.len(),
        e.bytes == items[i].bytes,
    ensures
        sum_bytes(items.update(i, e)) == sum_bytes(items),
        sum_pins(items.update(i, e)) + items[i].pins == sum_pins(items) + e.pins,
    decreases items.len(),
{
    let u = items.update(i, e);
    if i == items.len() - 1 {
        assert(u.drop_last() =~= items.drop_last());
    } else {
        assert(u.drop_last() =~= items.drop_last().update(i, e));
        lemma_sums_update(items.drop_last(), i, e);
    }
}

proof fn lemma_pin_bound(items: Seq<LedgerEntry>, i: int)
    requires
        0 <= i < items.len(),
    ensures
        items[i].pins <= sum_pins(items),
        items[i].bytes <= sum_bytes(items),
    decreases items.len(),
{
    if i < items.len() - 1 {
        lemma_pin_bound(items.drop_last(), i);
    }
}

proof fn lemma_sums_remove(items: Seq<LedgerEntry>, i: int)
    requires
        0 <= i < items.len(),
    ensures
        sum_bytes(items.remove(i)) + items[i].bytes == sum_bytes(items),
        sum_pins(items.remove(i)) + items[i].pins == sum_pins(items),
    decreases items.len(),
{
    let r = items.remove(i);
    if i == items.len() - 1 {
        assert(r =~= items.drop_last());
    } else {
        assert(r.drop_last() =~= items.drop_last().remove(i));
        lemma_sums_remove(items.drop_last(), i);
    }
}

impl BudgetLedger {
    /// Internal consistency: distinct identities, every listed asset pinned,
    /// charged bytes and pin count equal to the sums over the entries, and the
    /// charge within the limit.
    pub closed spec fn wf(&self) -> bool {
        &&& ids_unique(self.items@)
        &&& forall|i: int| 0 <= i < self.items@.len() ==> (#[trigger] self.items@[i]).pins >= 1
        &&& self.used as nat == sum_bytes(self.items@)
        &&& self.total_pins as nat == sum_pins(self.items@)
        &&& self.used <= self.limit
        &&& self.accounts()
    }

    /// The pins match the outstanding reservations: an asset is held exactly
    /// when some outstanding reservation pins it, with one pin for each such
    /// reservation, and the pin total is the number of assets they pin.
    pub closed spec fn accounts(&self) -> bool {
        &&& forall|k: Seq<char>|
            #![trigger lookup(self.items@, k)]
            match lookup(self.items@, k) {
                Some(h) => h.1 == live_bag(self.live@).count(k),
                None => live_bag(self.live@).count(k) == 0,
            }
        &&& self.total_pins as nat == live_bag(self.live@).len()
        &&& tickets_fresh(self.live@, self.next@)
    }

    /// The reservations this ledger has issued and not yet taken back, with
    /// their tickets and assets, in the order they were issued.
    pub closed spec fn outstanding(&self) -> Seq<(nat, Seq<Seq<char>>)> {
        self.live@
    }

    /// The byte limit.
    pub closed spec fn limit_of(&self) -> u64 {
        self.limit
    }

    /// Bytes currently charged.
    pub closed spec fn used_of(&self) -> u64 {
        self.used
    }

    /// Total number of pins over all assets.
    pub closed spec fn pins_of(&self) -> nat {
        self.total_pins as nat
    }

    /// The bytes charged for asset `k` and how many groups pin it, if it is held.
    pub closed spec fn holding(&self, k: Seq<char>) -> Option<(u64, nat)> {
        lookup(self.items@, k)
    }
}

impl Reservation {
    /// The assets this reservation pins.
    pub closed spec fn ids_of(&self) -> Seq<Seq<char>> {
        self.ids@.map_values(|s: String| s@)
    }

    /// The ticket the issuing ledger filed this reservation under.
    pub closed spec fn ticket_of(&self) -> nat {
        self.ticket@
    }

    /// A reservation pins each asset once.
    pub open spec fn wf(&self) -> bool {
        forall|i: int, j: int| 0 <= i < j < self.ids_of().len() ==> self.ids_of()[i] != self.ids_of()[j]
    }
}

/// Bytes that admitting `assets` adds to `l`: the costs of the assets it does not hold yet.
pub open spec fn fresh_cost(l: BudgetLedger, assets: Seq<(String, u64)>) -> nat
    decreases assets.len(),
{
    if assets.len() == 0 {
        0
    } else {
        fresh_cost(l, assets.drop_last()) + if l.holding(assets.last().0@) is None {
            assets.last().1 as nat
        } else {
            0
        }
    }
}

/// What `l1` holds after admitting `assets` into `l0`: held assets gain a pin,
/// new ones enter with their cost and one pin.
pub open spec fn reserved(l0: BudgetLedger, assets: Seq<(String, u64)>, l1: BudgetLedger) -> bool {
    &&& l1.limit_of() == l0.limit_of()
    &&& l1.used_of() == l0.used_of() + fresh_cost(l0, assets)
    &&& l1.pins_of() == l0.pins_of() + assets.len()
    &&& forall|k: Seq<char>|
        #![trigger l1.holding(k)]
        l1.holding(k) == match l0.holding(k) {
            Some(h) => Some((h.0, h.1 + if asset_cost(assets, k) is Some { 1nat } else { 0nat })),
            None => match asset_cost(assets, k) {
                Some(c) => Some((c, 1nat)),
                None => None,
            },
        }
}

/// Bytes that releasing `ids` from `l` frees: those of assets pinned only once.
pub open spec fn freed_bytes(l: BudgetLedger, ids: Seq<Seq<char>>) -> nat
    decreases ids.len(),
{
    if ids.len() == 0 {
        0
    } else {
        freed_bytes(l, ids.drop_last()) + match l.holding(ids.last()) {
            Some(h) => if h.1 <= 1 { h.0 as nat } else { 0 },
            None => 0,
        }
    }
}

/// Held assets of `l0` named in `ids` that are held by `l0`.
pub open spec fn held_count(l: BudgetLedger, ids: Seq<Seq<char>>) -> nat
    decreases ids.len(),
{
    if ids.len() == 0 {
        0
    } else {
        held_count(l, ids.drop_last()) + if l.holding(ids.last()) is Some { 1nat } else { 0nat }
    }
}

/// What `l1` holds after dropping one pin of each of `ids` from `l0`; an asset
/// whose last pin goes is removed and its bytes are no longer charged.
pub open spec fn released(l0: BudgetLedger, ids: Seq<Seq<char>>, l1: BudgetLedger) -> bool {
    &&& l1.limit_of() == l0.limit_of()
    &&& l1.used_of() + freed_bytes(l0, ids) == l0.used_of()
    &&& l1.pins_of() + held_count(l0, ids) == l0.pins_of()
    &&& forall|k: Seq<char>|
        #![trigger l1.holding(k)]
        l1.holding(k) == match l0.holding(k) {
            Some(h) => if ids.contains(k) {
                if h.1 <= 1 {
                    None
                } else {
                    Some((h.0, (h.1 - 1) as nat))
                }
            } else {
                Some(h)
            },
            None => None,
        }
}

/// The message of a refused admission.
pub open spec fn over_budget_message(need: nat, available: nat) -> Seq<char> {
    "requires "@ + decimal_text(need) + " bytes; "@ + decimal_text(available) + " available"@
}

fn find_entry(items: &Vec<LedgerEntry>, k: &String) -> (r: Option<usize>)
    ensures
        match r {
            Some(i) => i < items@.len() && items@[i as int].id@ == k@,
            None => forall|i: int| 0 <= i < items@.len() ==> (#[trigger] items@[i]).id@ != k@,
        },
{
    let mut i: usize = 0;
    while i < items.len()
        invariant
            i <= items@.len(),
            forall|j: int| 0 <= j < i ==> (#[trigger] items@[j]).id@ != k@,
        decreases items@.len() - i,
    {
        if str_eq(items[i].id.as_str(), k.as_str()) {
            return Some(i);
        }
        i = i + 1;
    }
    None
}

proof fn lemma_fresh_cost_prefix(l: BudgetLedger, assets: Seq<(String, u64)>, i: int)
    requires
        0 <= i <= assets.len(),
    ensures
        fresh_cost(l, assets.subrange(0, i)) <= fresh_cost(l, assets),
    decreases assets.len() - i,
{
    if i < assets.len() {
        lemma_fresh_cost_prefix(l, assets, i + 1);
        assert(assets.subrange(0, i + 1).drop_last() =~= assets.subrange(0, i));
    } else {
        assert(assets.subrange(0, i) =~= assets);
    }
}

proof fn lemma_asset_cost_at(assets: Seq<(String, u64)>, i: int)
    requires
        assets_unique(assets),
        0 <= i < assets.len(),
    ensures
        asset_cost(assets, assets[i].0@) == Some(assets[i].1),
{
    let k = assets[i].0@;
    let c = choose|c: int| 0 <= c < assets.len() && (#[trigger] assets[c]).0@ == k;
    assert(0 <= c < assets.len() && assets[c].0@ == k);
    if c != i {
        if c < i {
            assert(assets[c].0@ != assets[i].0@);
        } else {
            assert(assets[i].0@ != assets[c].0@);
        }
    }
}

proof fn lemma_asset_cost_prefix(assets: Seq<(String, u64)>, j: int, k: Seq<char>)
    requires
        assets_unique(assets),
        0 <= j < assets.len(),
    ensures
        asset_cost(assets.subrange(0, j + 1), k) == if assets[j].0@ == k {
            Some(assets[j].1)
        } else {
            asset_cost(assets.subrange(0, j), k)
        },
{
    let p = assets.subrange(0, j + 1);
    let q = assets.subrange(0, j);
    assert(assets_unique(p));
    assert(assets_unique(q));
    if assets[j].0@ == k {
        lemma_asset_cost_at(p, j);
    } else {
        if exists|i: int| 0 <= i < q.len() && (#[trigger] q[i]).0@ == k {
            let c = choose|i: int| 0 <= i < q.len() && (#[trigger] q[i]).0@ == k;
            lemma_asset_cost_at(q, c);
            lemma_asset_cost_at(p, c);
        } else {
            assert forall|i: int| 0 <= i < p.len() implies (#[trigger] p[i]).0@ != k by {
                if i < j {
                    assert(p[i] == q[i]);
                }
            }
        }
    }
}

impl BudgetLedger {
    /// An empty ledger with the given byte limit.
    pub fn new(limit: u64) -> (l: BudgetLedger)
        ensures
            l.wf(),
            l.limit_of() == limit,
            l.used_of() == 0,
            l.pins_of() == 0,
            forall|k: Seq<char>| #[trigger] l.holding(k) is None,
            l.outstanding() == Seq::<(nat, Seq<Seq<char>>)>::empty(),
    {
        BudgetLedger { limit, used: 0, total_pins: 0, items: Vec::new(), live: Ghost(Seq::empty()), next: Ghost(0) }
    }

    /// Bytes currently charged.
    pub fn used(&self) -> (u: u64)
        ensures
            u == self.used_of(),
    {
        self.used
    }

    /// Total pins over all held assets.
    pub fn pins(&self) -> (p: usize)
        ensures
            p as nat == self.pins_of(),
    {
        self.total_pins
    }

    /// Admits a group of assets as a whole or not at all. Assets already held
    /// cost nothing more; the new ones must fit the remaining budget.
    pub fn reserve(&mut self, assets: &Vec<(String, u64)>) -> (r: Result<Reservation, Diagnostic>)
        requires
            old(self).wf(),
            assets_unique(assets@),
            old(self).pins_of() + assets@.len() <= usize::MAX,
        ensures
            final(self).wf(),
            fresh_cost(*old(self), assets@) > u64::MAX ==> *final(self) == *old(self) && fails_with(
                r,
                "E_BUDGET"@,
                "reserve"@,
                "cost overflow"@,
            ),
            fresh_cost(*old(self), assets@) <= u64::MAX && fresh_cost(*old(self), assets@)
                > old(self).limit_of() - old(self).used_of() ==> *final(self) == *old(self)
                && fails_with(
                r,
                "E_BUDGET"@,
                "reserve"@,
                over_budget_message(
                    fresh_cost(*old(self), assets@),
                    (old(self).limit_of() - old(self).used_of()) as nat,
                ),
            ),
            fresh_cost(*old(self), assets@) <= old(self).limit_of() - old(self).used_of() ==> match r {
                Ok(res) => reserved(*old(self), assets@, *final(self)) && res.ids_of() == asset_keys(assets@)
                    && res.wf() && final(self).outstanding() == old(self).outstanding().push((res.ticket_of(), res.ids_of()))
                    && forall|i: int| 0 <= i < old(self).outstanding().len() ==> (#[trigger] old(self).outstanding()[i]).0 != res.ticket_of(),
                Err(_) => false,
            },
    {
        let n = assets.len();
        let mut extra: u64 = 0;
        let mut i: usize = 0;
        while i < n
            invariant
                n == assets@.len(),
                i <= n,
                extra as nat == fresh_cost(*self, assets@.subrange(0, i as int)),
                self.wf(),
            decreases n - i,
        {
            proof {
                assert(assets@.subrange(0, i + 1).drop_last() =~= assets@.subrange(0, i as int));
            }
            match find_entry(&self.items, &assets[i].0) {
                Some(j) => {
                    proof {
                        lemma_lookup_at(self.items@, j as int);
                    }
                },
                None => {
                    match extra.checked_add(assets[i].1) {
                        Some(e) => {
                            extra = e;
                        },
                        None => {
                            proof {
                                lemma_fresh_cost_prefix(*self, assets@, i + 1);
                            }
                            return Err(Diagnostic::new("E_BUDGET", "reserve", "cost overflow"));
                        },
                    }
                },
            }
            i = i + 1;
        }
        assert(assets@.subrange(0, n as int) =~= assets@);
        let available = self.limit - self.used;
        if extra > available {
            let mut msg = concat("requires ", decimal(extra).as_str());
            msg.append(" bytes; ");
            msg.append(decimal(available).as_str());
            msg.append(" available");
            return Err(Diagnostic::new("E_BUDGET", "reserve", msg.as_str()));
        }
        let ghost l0 = *self;
        let mut ids: Vec<String> = Vec::new();
        let mut k: usize = 0;
        while k < n
            invariant
                n == assets@.len(),
                assets_unique(assets@),
                k <= n,
                l0.wf(),
                l0.pins_of() + n <= usize::MAX,
                self.live == l0.live,
                self.next == l0.next,
                fresh_cost(l0, assets@) == extra,
                extra <= l0.limit_of() - l0.used_of(),
                ids_unique(self.items@),
                forall|i: int| 0 <= i < self.items@.len() ==> (#[trigger] self.items@[i]).pins >= 1,
                sum_bytes(self.items@) == l0.used_of() + fresh_cost(l0, assets@.subrange(0, k as int)),
                self.total_pins as nat == sum_pins(self.items@),
                sum_pins(self.items@) == l0.pins_of() + k,
                self.limit == l0.limit_of(),
                self.used == l0.used_of(),
                ids@.len() == k,
                forall|i: int| 0 <= i < k ==> (#[trigger] ids@[i])@ == assets@[i].0@,
                forall|key: Seq<char>|
                    #![trigger lookup(self.items@, key)]
                    lookup(self.items@, key) == match l0.holding(key) {
                        Some(h) => Some(
                            (h.0, h.1 + if asset_cost(assets@.subrange(0, k as int), key) is Some {
                                1nat
                            } else {
                                0nat
                            }),
                        ),
                        None => match asset_cost(assets@.subrange(0, k as int), key) {
                            Some(c) => Some((c, 1nat)),
                            None => None,
                        },
                    },
            decreases n - k,
        {
            let ghost before = self.items@;
            let ghost key_k = assets@[k as int].0@;
            proof {
                assert(assets@.subrange(0, k + 1).drop_last() =~= assets@.subrange(0, k as int));
                lemma_fresh_cost_prefix(l0, assets@, k + 1);
                assert forall|key: Seq<char>| key != key_k implies asset_cost(assets@.subrange(0, k + 1), key)
                    == asset_cost(assets@.subrange(0, k as int), key) by {
                    lemma_asset_cost_prefix(assets@, k as int, key);
                }
                lemma_asset_cost_prefix(assets@, k as int, key_k);
                assert(asset_cost(assets@.subrange(0, k as int), key_k) is None) by {
                    if exists|i: int| 0 <= i < k && (#[trigger] assets@.subrange(0, k as int)[i]).0@ == key_k {
                        let c = choose|i: int| 0 <= i < k && (#[trigger] assets@.subrange(0, k as int)[i]).0@ == key_k;
                        assert(assets@[c].0@ != assets@[k as int].0@);
                    }
                }
            }
            match find_entry(&self.items, &assets[k].0) {
                Some(j) => {
                    proof {
                        lemma_lookup_at(before, j as int);
                        lemma_pin_bound(before, j as int);
                    }
                    let e = LedgerEntry {
                        id: self.items[j].id.clone(),
                        bytes: self.items[j].bytes,
                        pins: self.items[j].pins + 1,
                    };
                    proof {
                        lemma_sums_update(before, j as int, e);
                    }
                    self.items.set(j, e);
                    proof {
                        let after = self.items@;
                        assert(ids_unique(after)) by {
                            assert forall|a: int, b: int| 0 <= a < b < after.len() implies after[a].id@ != after[b].id@ by {
                                assert(before[a].id@ != before[b].id@);
                            }
                        }
                        assert forall|key: Seq<char>| #[trigger] lookup(after, key) == if key == key_k {
                            Some((before[j as int].bytes, (before[j as int].pins + 1) as nat))
                        } else {
                            lookup(before, key)
                        } by {
                            if key == key_k {
                                lemma_lookup_at(after, j as int);
                            } else {
                                if exists|i: int| 0 <= i < before.len() && (#[trigger] before[i]).id@ == key {
                                    let c = choose|i: int| 0 <= i < before.len() && (#[trigger] before[i]).id@ == key;
                                    lemma_lookup_at(before, c);
                                    lemma_lookup_at(after, c);
                                } else {
                                    assert forall|i: int| 0 <= i < after.len() implies (#[trigger] after[i]).id@ != key by {
                                        assert(before[i].id@ != key);
                                    }
                                }
                            }
                        }
                        assert(l0.holding(key_k) is Some);
                    }
                },
                None => {
                    let e = LedgerEntry { id: assets[k].0.clone(), bytes: assets[k].1, pins: 1 };
                    self.items.push(e);
                    proof {
                        let after = self.items@;
                        assert(after.drop_last() =~= before);
                        assert(ids_unique(after)) by {
                            assert forall|a: int, b: int| 0 <= a < b < after.len() implies after[a].id@ != after[b].id@ by {
                                if b < before.len() {
                                    assert(before[a].id@ != before[b].id@);
                                }
                            }
                        }
                        assert(lookup(before, key_k) is None);
                        assert forall|key: Seq<char>| #[trigger] lookup(after, key) == if key == key_k {
                            Some((assets@[k as int].1, 1nat))
                        } else {
                            lookup(before, key)
                        } by {
                            if key == key_k {
                                lemma_lookup_at(after, before.len() as int);
                            } else {
                                if exists|i: int| 0 <= i < before.len() && (#[trigger] before[i]).id@ == key {
                                    let c = choose|i: int| 0 <= i < before.len() && (#[trigger] before[i]).id@ == key;
                                    lemma_lookup_at(before, c);
                                    lemma_lookup_at(after, c);
                                } else {
                                    assert forall|i: int| 0 <= i < after.len() implies (#[trigger] after[i]).id@ != key by {
                                        if i < before.len() {
                                            assert(before[i].id@ != key);
                                        }
                                    }
                                }
                            }
                        }
                    }
                },
            }
            self.total_pins = self.total_pins + 1;
            ids.push(assets[k].0.clone());
            k = k + 1;
        }
        self.used = self.used + extra;
        proof {
            assert(assets@.subrange(0, n as int) =~= assets@);
            assert(ids@.map_values(|s: String| s@) =~= asset_keys(assets@));
        }
        let ghost t = l0.next@;
        self.live = Ghost(l0.live@.push((t, asset_keys(assets@))));
        self.next = Ghost(t + 1);
        proof {
            assert(reserved(l0, assets@, *self));
            lemma_accounts_reserve(l0, assets@, *self);
        }
        let res = Reservation { ids, ticket: Ghost(t) };
        proof {
            assert forall|i: int, j: int| 0 <= i < j < res.ids_of().len() implies res.ids_of()[i] != res.ids_of()[j] by {
                assert(res.ids_of()[i] == assets@[i].0@);
                assert(res.ids_of()[j] == assets@[j].0@);
            }
        }
        Ok(res)
    }
}


proof fn lemma_lookup_remove(items: Seq<LedgerEntry>, i: int, key: Seq<char>)
    requires
        ids_unique(items),
        0 <= i < items.len(),
    ensures
        ids_unique(items.remove(i)),
        lookup(items.remove(i), key) == if key == items[i].id@ {
            None
        } else {
            lookup(items, key)
        },
{
    let r = items.remove(i);
    assert forall|a: int, b: int| 0 <= a < b < r.len() implies r[a].id@ != r[b].id@ by {
        let a2 = if a < i { a } else { a + 1 };
        let b2 = if b < i { b } else { b + 1 };
        assert(r[a] == items[a2]);
        assert(r[b] == items[b2]);
        assert(items[a2].id@ != items[b2].id@);
    }
    if key == items[i].id@ {
        assert forall|c: int| 0 <= c < r.len() implies (#[trigger] r[c]).id@ != key by {
            let c2 = if c < i { c } else { c + 1 };
            assert(r[c] == items[c2]);
            if c2 < i {
                assert(items[c2].id@ != items[i].id@);
            } else {
                assert(items[i].id@ != items[c2].id@);
            }
        }
    } else {
        if exists|c: int| 0 <= c < items.len() && (#[trigger] items[c]).id@ == key {
            let c = choose|c: int| 0 <= c < items.len() && (#[trigger] items[c]).id@ == key;
            lemma_lookup_at(items, c);
            let c3 = if c < i { c } else { c - 1 };
            assert(c != i);
            assert(r[c3] == items[c]);
            lemma_lookup_at(r, c3);
        } else {
            assert forall|c: int| 0 <= c < r.len() implies (#[trigger] r[c]).id@ != key by {
                let c2 = if c < i { c } else { c + 1 };
                assert(r[c] == items[c2]);
            }
        }
    }
}

proof fn lemma_lookup_set(items: Seq<LedgerEntry>, i: int, e: LedgerEntry, key: Seq<char>)
    requires
        ids_unique(items),
        0 <= i < items.len(),
        e.id@ == items[i].id@,
    ensures
        ids_unique(items.update(i, e)),
        lookup(items.update(i, e), key) == if key == items[i].id@ {
            Some((e.bytes, e.pins as nat))
        } else {
            lookup(items, key)
        },
{
    let u = items.update(i, e);
    assert forall|a: int, b: int| 0 <= a < b < u.len() implies u[a].id@ != u[b].id@ by {
        assert(items[a].id@ != items[b].id@);
    }
    if key == items[i].id@ {
        lemma_lookup_at(u, i);
    } else {
        if exists|c: int| 0 <= c < items.len() && (#[trigger] items[c]).id@ == key {
            let c = choose|c: int| 0 <= c < items.len() && (#[trigger] items[c]).id@ == key;
            lemma_lookup_at(items, c);
            lemma_lookup_at(u, c);
        } else {
            assert forall|c: int| 0 <= c < u.len() implies (#[trigger] u[c]).id@ != key by {
                assert(items[c].id@ != key);
            }
        }
    }
}

proof fn lemma_lookup_some_pinned(items: Seq<LedgerEntry>, key: Seq<char>)
    requires
        forall|i: int| 0 <= i < items.len() ==> (#[trigger] items[i]).pins >= 1,
        lookup(items, key) is Some,
    ensures
        lookup(items, key) matches Some(h) && h.1 >= 1,
{
    let c = choose|c: int| 0 <= c < items.len() && (#[trigger] items[c]).id@ == key;
    assert(items[c].pins >= 1);
}

impl BudgetLedger {
    /// Gives back a reservation: each of its assets loses one pin, and an asset
    /// whose last pin goes is no longer charged.
    pub fn release(&mut self, r: Reservation)
        requires
            old(self).wf(),
            r.wf(),
            old(self).outstanding().contains((r.ticket_of(), r.ids_of())),
        ensures
            final(self).wf(),
            released(*old(self), r.ids_of(), *final(self)),
            exists|i: int| 0 <= i < old(self).outstanding().len() && old(self).outstanding()[i] == (r.ticket_of(), r.ids_of())
                && final(self).outstanding() == old(self).outstanding().remove(i),
    {
        let ghost l0 = *self;
        let ghost ids = r.ids_of();
        let ghost slot = choose|i: int| 0 <= i < l0.live@.len() && l0.live@[i] == (r.ticket@, ids);
        let n = r.ids.len();
        let mut j: usize = 0;
        while j < n
            invariant
                n == r.ids@.len(),
                ids == r.ids@.map_values(|s: String| s@),
                forall|a: int, b: int| 0 <= a < b < ids.len() ==> ids[a] != ids[b],
                j <= n,
                l0.wf(),
                self.live == l0.live,
                self.next == l0.next,
                ids_unique(self.items@),
                forall|i: int| 0 <= i < self.items@.len() ==> (#[trigger] self.items@[i]).pins >= 1,
                self.used as nat == sum_bytes(self.items@),
                self.total_pins as nat == sum_pins(self.items@),
                self.used <= self.limit,
                self.limit == l0.limit_of(),
                self.used + freed_bytes(l0, ids.subrange(0, j as int)) == l0.used_of(),
                self.total_pins + held_count(l0, ids.subrange(0, j as int)) == l0.pins_of(),
                forall|key: Seq<char>|
                    #![trigger lookup(self.items@, key)]
                    lookup(self.items@, key) == match l0.holding(key) {
                        Some(h) => if ids.subrange(0, j as int).contains(key) {
                            if h.1 <= 1 {
                                None
                            } else {
                                Some((h.0, (h.1 - 1) as nat))
                            }
                        } else {
                            Some(h)
                        },
                        None => None,
                    },
            decreases n - j,
        {
            let ghost before = self.items@;
            let ghost key_j = ids[j as int];
            let ghost pre = ids.subrange(0, j as int);
            let ghost post = ids.subrange(0, j + 1);
            proof {
                assert(post.drop_last() =~= pre);
                assert(post.last() == key_j);
                assert(!pre.contains(key_j)) by {
                    if pre.contains(key_j) {
                        let c = choose|c: int| 0 <= c < pre.len() && pre[c] == key_j;
                        assert(ids[c] != ids[j as int]);
                    }
                }
                assert forall|key: Seq<char>| key != key_j implies (post.contains(key) == pre.contains(key)) by {
                    if post.contains(key) {
                        let c = choose|c: int| 0 <= c < post.len() && post[c] == key;
                        assert(c < j);
                        assert(pre[c] == key);
                    }
                    if pre.contains(key) {
                        let c = choose|c: int| 0 <= c < pre.len() && pre[c] == key;
                        assert(post[c] == key);
                    }
                }
                assert(post.contains(key_j)) by {
                    assert(post[j as int] == key_j);
                }
                assert(lookup(before, key_j) == l0.holding(key_j));
            }
            match find_entry(&self.items, &r.ids[j]) {
                Some(i) => {
                    proof {
                        lemma_lookup_at(before, i as int);
                        lemma_pin_bound(before, i as int);
                        assert(l0.holding(key_j) is Some);
                        lemma_lookup_some_pinned(l0.items@, key_j);
                    }
                    if self.items[i].pins == 1 {
                        let bytes = self.items[i].bytes;
                        proof {
                            lemma_sums_remove(before, i as int);
                            assert forall|key: Seq<char>| true implies #[trigger] lookup(before.remove(i as int), key) == if key == key_j {
                                None
                            } else {
                                lookup(before, key)
                            } by {
                                lemma_lookup_remove(before, i as int, key);
                            }
                            lemma_lookup_remove(before, i as int, key_j);
                        }
                        self.items.remove(i);
                        self.used = self.used - bytes;
                    } else {
                        let e = LedgerEntry {
                            id: self.items[i].id.clone(),
                            bytes: self.items[i].bytes,
                            pins: self.items[i].pins - 1,
                        };
                        proof {
                            lemma_sums_update(before, i as int, e);
                            assert forall|key: Seq<char>| true implies #[trigger] lookup(before.update(i as int, e), key) == if key == key_j {
                                Some((e.bytes, e.pins as nat))
                            } else {
                                lookup(before, key)
                            } by {
                                lemma_lookup_set(before, i as int, e, key);
                            }
                            lemma_lookup_set(before, i as int, e, key_j);
                        }
                        self.items.set(i, e);
                    }
                    self.total_pins = self.total_pins - 1;
                },
                None => {
                    proof {
                        assert(lookup(before, key_j) is None);
                    }
                },
            }
            j = j + 1;
        }
        proof {
            assert(ids.subrange(0, n as int) =~= ids);
        }
        self.live = Ghost(l0.live@.remove(slot));
        proof {
            assert(released(l0, ids, *self));
            lemma_accounts_release(l0, slot, *self);
        }
    }
}

proof fn lemma_held_count_all(l: BudgetLedger, ids: Seq<Seq<char>>)
    requires
        forall|j: int| 0 <= j < ids.len() ==> (#[trigger] l.holding(ids[j])) is Some,
    ensures
        held_count(l, ids) == ids.len(),
    decreases ids.len(),
{
    if ids.len() > 0 {
        let p = ids.drop_last();
        assert forall|j: int| 0 <= j < p.len() implies (#[trigger] l.holding(p[j])) is Some by {
            assert(p[j] == ids[j]);
        }
        lemma_held_count_all(l, p);
        assert(l.holding(ids[ids.len() - 1]) is Some);
    }
}

proof fn lemma_accounts_reserve(l0: BudgetLedger, assets: Seq<(String, u64)>, l1: BudgetLedger)
    requires
        l0.wf(),
        assets_unique(assets),
        reserved(l0, assets, l1),
        l1.live@ == l0.live@.push((l0.next@, asset_keys(assets))),
        l1.next@ == l0.next@ + 1,
        l1.total_pins as nat == l1.pins_of(),
    ensures
        l1.accounts(),
{
    let keys = asset_keys(assets);
    assert forall|i: int, j: int| 0 <= i < j < keys.len() implies keys[i] != keys[j] by {
        assert(keys[i] == assets[i].0@ && keys[j] == assets[j].0@);
    }
    assert(l1.live@.drop_last() =~= l0.live@);
    assert(live_bag(l1.live@) == live_bag(l0.live@).add(keys_bag(keys)));
    assert forall|k: Seq<char>| #![trigger lookup(l1.items@, k)] match lookup(l1.items@, k) {
        Some(h) => h.1 == live_bag(l1.live@).count(k),
        None => live_bag(l1.live@).count(k) == 0,
    } by {
        lemma_keys_bag(keys, k);
        let _ = l1.holding(k);
        let _ = lookup(l0.items@, k);
        if keys.contains(k) {
            let c = choose|c: int| 0 <= c < keys.len() && keys[c] == k;
            lemma_asset_cost_at(assets, c);
        } else if asset_cost(assets, k) is Some {
            let c = choose|i: int| 0 <= i < assets.len() && (#[trigger] assets[i]).0@ == k;
            assert(keys[c] == k);
        }
    }
    lemma_keys_bag(keys, Seq::empty());
    assert(tickets_fresh(l1.live@, l1.next@)) by {
        assert forall|i: int| 0 <= i < l1.live@.len() implies (#[trigger] l1.live@[i]).0 < l1.next@ by {
            if i < l0.live@.len() {
                assert(l1.live@[i] == l0.live@[i]);
            }
        }
        assert forall|i: int, j: int| 0 <= i < j < l1.live@.len() implies (#[trigger] l1.live@[i]).0 != (#[trigger] l1.live@[j]).0 by {
            assert(l1.live@[i] == l0.live@[i]);
            if j < l0.live@.len() {
                assert(l1.live@[j] == l0.live@[j]);
            }
        }
    }
}

proof fn lemma_accounts_release(l0: BudgetLedger, slot: int, l1: BudgetLedger)
    requires
        l0.wf(),
        0 <= slot < l0.live@.len(),
        forall|a: int, b: int| 0 <= a < b < l0.live@[slot].1.len() ==> l0.live@[slot].1[a] != l0.live@[slot].1[b],
        released(l0, l0.live@[slot].1, l1),
        l1.live@ == l0.live@.remove(slot),
        l1.next@ == l0.next@,
        l1.total_pins as nat == l1.pins_of(),
    ensures
        l1.accounts(),
{
    let ids = l0.live@[slot].1;
    lemma_live_bag_remove(l0.live@, slot);
    assert forall|k: Seq<char>| #![trigger lookup(l1.items@, k)] match lookup(l1.items@, k) {
        Some(h) => h.1 == live_bag(l1.live@).count(k),
        None => live_bag(l1.live@).count(k) == 0,
    } by {
        lemma_keys_bag(ids, k);
        let _ = l1.holding(k);
        let _ = lookup(l0.items@, k);
    }
    assert forall|j: int| 0 <= j < ids.len() implies (#[trigger] l0.holding(ids[j])) is Some by {
        lemma_keys_bag(ids, ids[j]);
        assert(ids.contains(ids[j]));
        let _ = lookup(l0.items@, ids[j]);
    }
    lemma_held_count_all(l0, ids);
    lemma_keys_bag(ids, Seq::empty());
    assert(tickets_fresh(l1.live@, l1.next@)) by {
        assert forall|i: int| 0 <= i < l1.live@.len() implies (#[trigger] l1.live@[i]).0 < l1.next@ by {
            if i < slot {
                assert(l1.live@[i] == l0.live@[i]);
            } else {
                assert(l1.live@[i] == l0.live@[i + 1]);
            }
        }
        assert forall|i: int, j: int| 0 <= i < j < l1.live@.len() implies (#[trigger] l1.live@[i]).0 != (#[trigger] l1.live@[j]).0 by {
            let i2 = if i < slot { i } else { i + 1 };
            let j2 = if j < slot { j } else { j + 1 };
            assert(l1.live@[i] == l0.live@[i2]);
            assert(l1.live@[j] == l0.live@[j2]);
        }
    }
}

/// The sum of the costs in a list of held assets.
pub open spec fn cost_sum(h: Seq<(Seq<char>, u64)>) -> nat
    decreases h.len(),
{
    if h.len() == 0 {
        0
    } else {
        cost_sum(h.drop_last()) + h.last().1 as nat
    }
}

impl BudgetLedger {
    /// The held assets, each once, with the bytes recorded when it was
    /// first reserved.
    pub closed spec fn held(&self) -> Seq<(Seq<char>, u64)> {
        self.items@.map_values(|e: LedgerEntry| (e.id@, e.bytes))
    }
}

proof fn lemma_cost_sum(items: Seq<LedgerEntry>)
    ensures
        cost_sum(items.map_values(|e: LedgerEntry| (e.id@, e.bytes))) == sum_bytes(items),
    decreases items.len(),
{
    if items.len() > 0 {
        lemma_cost_sum(items.drop_last());
        assert(items.map_values(|e: LedgerEntry| (e.id@, e.bytes)).drop_last() =~= items.drop_last().map_values(|e: LedgerEntry| (e.id@, e.bytes)));
    }
}

/// The ledger law over any interleaving of reservations and releases, stated
/// over the reservations still outstanding: an asset is held exactly when an
/// outstanding reservation pins it, with one pin for each such reservation;
/// the pin total is the number of assets the outstanding reservations pin;
/// the charged bytes are the sum of the held assets' first recorded costs,
/// each asset once; and no two outstanding reservations share a ticket.
pub proof fn ledger_matches_outstanding(l: &BudgetLedger, k: Seq<char>)
    requires
        l.wf(),
    ensures
        l.holding(k) matches Some(h) ==> h.1 == live_bag(l.outstanding()).count(k),
        l.holding(k) is None ==> live_bag(l.outstanding()).count(k) == 0,
        l.pins_of() == live_bag(l.outstanding()).len(),
        l.used_of() == cost_sum(l.held()),
        forall|i: int, j: int| 0 <= i < j < l.held().len() ==> (#[trigger] l.held()[i]).0 != (#[trigger] l.held()[j]).0,
        forall|i: int| 0 <= i < l.held().len() ==> (l.holding((#[trigger] l.held()[i]).0) matches Some(h) && h.0 == l.held()[i].1),
        l.holding(k) is Some ==> exists|i: int| 0 <= i < l.held().len() && (#[trigger] l.held()[i]).0 == k,
        forall|i: int, j: int| 0 <= i < j < l.outstanding().len() ==> (#[trigger] l.outstanding()[i]).0 != (#[trigger] l.outstanding()[j]).0,
{
    let _ = lookup(l.items@, k);
    lemma_cost_sum(l.items@);
    let items = l.items@;
    assert forall|i: int| 0 <= i < l.held().len() implies (l.holding((#[trigger] l.held()[i]).0) matches Some(h) && h.0 == l.held()[i].1) by {
        lemma_lookup_at(items, i);
    }
    if l.holding(k) is Some {
        let c = choose|c: int| 0 <= c < items.len() && (#[trigger] items[c]).id@ == k;
        assert(l.held()[c].0 == k);
    }
}

/// The ledger law over any sequence of reservations and releases: every
/// operation keeps the ledger well formed, and a well-formed ledger charges
/// at most its limit, charges each held asset's bytes once within that total,
/// counts each asset's pins within the pin total, and charges nothing and
/// counts no pin when it holds no asset.
pub proof fn ledger_stays_within_limit(l: &BudgetLedger, k: Seq<char>)
    requires
        l.wf(),
    ensures
        l.used_of() <= l.limit_of(),
        l.holding(k) matches Some(h) ==> h.0 <= l.used_of() && 1 <= h.1 <= l.pins_of(),
        (forall|x: Seq<char>| #[trigger] l.holding(x) is None) ==> l.used_of() == 0 && l.pins_of() == 0,
{
    let items = l.items@;
    if exists|i: int| 0 <= i < items.len() && (#[trigger] items[i]).id@ == k {
        let i = choose|i: int| 0 <= i < items.len() && (#[trigger] items[i]).id@ == k;
        lemma_lookup_at(items, i);
        lemma_pin_bound(items, i);
    }
    if items.len() > 0 {
        assert(l.holding(items[0].id@) is Some) by {
            lemma_lookup_at(items, 0);
        }
    } else {
        assert(items =~= Seq::<LedgerEntry>::empty());
    }
}

/// Releasing what was just reserved gives back the ledger as it was: the same
/// holdings, the same charged bytes and the same pin count.
pub proof fn reserve_then_release_restores(
    l0: BudgetLedger,
    assets: Seq<(String, u64)>,
    l1: BudgetLedger,
    l2: BudgetLedger,
)
    requires
        l0.wf(),
        assets_unique(assets),
        reserved(l0, assets, l1),
        released(l1, asset_keys(assets), l2),
    ensures
        forall|k: Seq<char>| #[trigger] l2.holding(k) == l0.holding(k),
        l2.used_of() == l0.used_of(),
        l2.pins_of() == l0.pins_of(),
        l2.limit_of() == l0.limit_of(),
{
    let keys = asset_keys(assets);
    assert forall|k: Seq<char>| #[trigger] l2.holding(k) == l0.holding(k) by {
        let _ = l1.holding(k);
        if keys.contains(k) {
            let c = choose|c: int| 0 <= c < keys.len() && keys[c] == k;
            lemma_asset_cost_at(assets, c);
            if l0.holding(k) is Some {
                lemma_lookup_some_pinned(l0.items@, k);
            }
        } else {
            if asset_cost(assets, k) is Some {
                let c = choose|i: int| 0 <= i < assets.len() && (#[trigger] assets[i]).0@ == k;
                assert(keys[c] == k);
            }
        }
    }
    lemma_round_trip_sums(l0, assets, l1, assets.len() as int);
    assert(assets.subrange(0, assets.len() as int) =~= assets);
    assert(keys.subrange(0, assets.len() as int) =~= keys);
}

proof fn lemma_round_trip_sums(l0: BudgetLedger, assets: Seq<(String, u64)>, l1: BudgetLedger, j: int)
    requires
        l0.wf(),
        assets_unique(assets),
        reserved(l0, assets, l1),
        0 <= j <= assets.len(),
    ensures
        freed_bytes(l1, asset_keys(assets).subrange(0, j)) == fresh_cost(l0, assets.subrange(0, j)),
        held_count(l1, asset_keys(assets).subrange(0, j)) == j,
    decreases j,
{
    let keys = asset_keys(assets);
    if j > 0 {
        lemma_round_trip_sums(l0, assets, l1, j - 1);
        assert(keys.subrange(0, j).drop_last() =~= keys.subrange(0, j - 1));
        assert(assets.subrange(0, j).drop_last() =~= assets.subrange(0, j - 1));
        let k = assets[j - 1].0@;
        assert(keys.subrange(0, j).last() == k);
        lemma_asset_cost_at(assets, j - 1);
        let _ = l1.holding(k);
        if l0.holding(k) is Some {
            lemma_lookup_some_pinned(l0.items@, k);
        }
    } else {
        assert(keys.subrange(0, 0).len() == 0);
        assert(assets.subrange(0, 0).len() == 0);
    }
}


/// A prepared resource group that may be used for one activation under one
/// set of generations.
pub struct ReadyLease {
    pub activation: u32,
    pub generation: Generation,
    reservation: Reservation,
}

impl ReadyLease {
    /// The assets this lease pins.
    pub closed spec fn assets_of(&self) -> Seq<Seq<char>> {
        self.reservation.ids_of()
    }

    /// The ticket of the reservation this lease holds.
    pub closed spec fn ticket_of(&self) -> nat {
        self.reservation.ticket_of()
    }

    /// The lease pins each asset once.
    pub closed spec fn wf(&self) -> bool {
        self.reservation.wf()
    }

    /// The activation this lease belongs to.
    pub closed spec fn activation_of(&self) -> u32 {
        self.activation
    }

    /// The generations this lease was prepared for.
    pub closed spec fn generation_of(&self) -> Generation {
        self.generation
    }

    /// The assets this lease pins.
    pub fn assets(&self) -> (r: &Vec<String>)
        ensures
            r@.map_values(|s: String| s@) == self.assets_of(),
    {
        &self.reservation.ids
    }

    /// The lease still belongs to this activation and these generations.
    pub fn valid(&self, activation: u32, generation: Generation) -> (r: bool)
        ensures
            r == (self.activation_of() == activation && self.generation_of() == generation),
    {
        self.activation == activation && self.generation == generation
    }

    /// Gives the lease's pins back to the ledger that issued them.
    pub fn release(self, ledger: &mut BudgetLedger)
        requires
            old(ledger).wf(),
            self.wf(),
            old(ledger).outstanding().contains((self.ticket_of(), self.assets_of())),
        ensures
            final(ledger).wf(),
            released(*old(ledger), self.assets_of(), *final(ledger)),
            exists|i: int| 0 <= i < old(ledger).outstanding().len() && old(ledger).outstanding()[i] == (self.ticket_of(), self.assets_of())
                && final(ledger).outstanding() == old(ledger).outstanding().remove(i),
    {
        ledger.release(self.reservation);
    }
}

/// A resource group being prepared: its assets are reserved and it waits
/// until every one of them has been reported ready.
pub struct PrepareJob {
    pub activation: u32,
    pub generation: Generation,
    pub missing: Vec<String>,
    reservation: Reservation,
}

/// The identities of a list of names.
pub open spec fn names_of(v: Seq<String>) -> Seq<Seq<char>> {
    v.map_values(|s: String| s@)
}

impl PrepareJob {
    /// The assets this job has reserved.
    pub closed spec fn assets_of(&self) -> Seq<Seq<char>> {
        self.reservation.ids_of()
    }

    /// The ticket of the reservation this job holds.
    pub closed spec fn ticket_of(&self) -> nat {
        self.reservation.ticket_of()
    }

    /// The activation this job prepares for.
    pub closed spec fn activation_of(&self) -> u32 {
        self.activation
    }

    /// The generations this job prepares for.
    pub closed spec fn generation_of(&self) -> Generation {
        self.generation
    }

    /// The assets still awaited.
    pub closed spec fn missing_of(&self) -> Seq<String> {
        self.missing@
    }

    /// The job pins each asset once and waits for distinct assets.
    pub closed spec fn wf(&self) -> bool {
        &&& self.reservation.wf()
        &&& forall|i: int, j: int| 0 <= i < j < self.missing@.len() ==> self.missing@[i]@ != self.missing@[j]@
    }

    /// Reserves the group's assets and starts waiting for all of them.
    pub fn new(activation: u32, generation: Generation, assets: Vec<(String, u64)>, ledger: &mut BudgetLedger) -> (r: Result<PrepareJob, Diagnostic>)
        requires
            old(ledger).wf(),
            assets_unique(assets@),
            old(ledger).pins_of() + assets@.len() <= usize::MAX,
        ensures
            final(ledger).wf(),
            fresh_cost(*old(ledger), assets@) > u64::MAX ==> *final(ledger) == *old(ledger) && fails_with(
                r,
                "E_BUDGET"@,
                "reserve"@,
                "cost overflow"@,
            ),
            fresh_cost(*old(ledger), assets@) <= u64::MAX && fresh_cost(*old(ledger), assets@)
                > old(ledger).limit_of() - old(ledger).used_of() ==> *final(ledger) == *old(ledger)
                && fails_with(
                r,
                "E_BUDGET"@,
                "reserve"@,
                over_budget_message(
                    fresh_cost(*old(ledger), assets@),
                    (old(ledger).limit_of() - old(ledger).used_of()) as nat,
                ),
            ),
            fresh_cost(*old(ledger), assets@) <= old(ledger).limit_of() - old(ledger).used_of() ==> match r {
                Ok(job) => {
                    &&& reserved(*old(ledger), assets@, *final(ledger))
                    &&& job.wf()
                    &&& job.activation_of() == activation
                    &&& job.generation_of() == generation
                    &&& job.assets_of() == asset_keys(assets@)
                    &&& names_of(job.missing_of()) == asset_keys(assets@)
                    &&& final(ledger).outstanding() == old(ledger).outstanding().push((job.ticket_of(), job.assets_of()))
                    &&& forall|i: int| 0 <= i < old(ledger).outstanding().len() ==> (#[trigger] old(ledger).outstanding()[i]).0 != job.ticket_of()
                },
                Err(_) => false,
            },
    {
        let reservation = ledger.reserve(&assets)?;
        let mut missing: Vec<String> = Vec::new();
        let mut i: usize = 0;
        while i < assets.len()
            invariant
                i <= assets@.len(),
                missing@.len() == i,
                forall|j: int| 0 <= j < i ==> (#[trigger] missing@[j])@ == assets@[j].0@,
            decreases assets@.len() - i,
        {
            missing.push(assets[i].0.clone());
            i = i + 1;
        }
        let job = PrepareJob { activation, generation, missing, reservation };
        proof {
            assert(names_of(job.missing_of()) =~= asset_keys(assets@));
            assert forall|a: int, b: int| 0 <= a < b < job.missing@.len() implies job.missing@[a]@ != job.missing@[b]@ by {
                assert(job.missing@[a]@ == assets@[a].0@);
                assert(job.missing@[b]@ == assets@[b].0@);
            }
        }
        Ok(job)
    }

    /// Records that asset `id` became ready for `generation`. Reports for a
    /// stale generation or for an asset not awaited change nothing.
    pub fn ready(&mut self, id: &str, generation: Generation) -> (r: bool)
        requires
            old(self).wf(),
        ensures
            final(self).wf(),
            r == (generation == old(self).generation_of() && names_of(old(self).missing_of()).contains(id@)),
            final(self).activation_of() == old(self).activation_of(),
            final(self).generation_of() == old(self).generation_of(),
            final(self).assets_of() == old(self).assets_of(),
            final(self).ticket_of() == old(self).ticket_of(),
            r ==> names_of(final(self).missing_of()).to_set() == names_of(old(self).missing_of()).to_set().remove(id@),
            !r ==> final(self).missing_of() == old(self).missing_of(),
    {
        if generation != self.generation {
            return false;
        }
        let ghost s0 = *self;
        let mut i: usize = 0;
        while i < self.missing.len()
            invariant
                *self == s0,
                s0 == *old(self),
                s0.wf(),
                generation == s0.generation,
                i <= self.missing@.len(),
                forall|j: int| 0 <= j < i ==> (#[trigger] self.missing@[j])@ != id@,
            decreases self.missing@.len() - i,
        {
            if str_eq(self.missing[i].as_str(), id) {
                let ghost before = self.missing@;
                self.missing.remove(i);
                proof {
                    let after = self.missing@;
                    assert(names_of(before)[i as int] == id@);
                    assert(names_of(before).contains(id@));
                    assert(forall|a: int, b: int| 0 <= a < b < after.len() ==> after[a]@ != after[b]@) by {
                        assert forall|a: int, b: int| 0 <= a < b < after.len() implies after[a]@ != after[b]@ by {
                            let a2 = if a < i { a } else { a + 1 };
                            let b2 = if b < i { b } else { b + 1 };
                            assert(after[a] == before[a2]);
                            assert(after[b] == before[b2]);
                        }
                    }
                    assert(names_of(after).to_set() =~= names_of(before).to_set().remove(id@)) by {
                        assert forall|x: Seq<char>| names_of(after).to_set().contains(x) implies names_of(before).to_set().remove(id@).contains(x) by {
                            let c = choose|c: int| 0 <= c < names_of(after).len() && names_of(after)[c] == x;
                            let c2 = if c < i { c } else { c + 1 };
                            assert(after[c] == before[c2]);
                            assert(names_of(before)[c2] == x);
                            if x == id@ {
                                if c2 < i {
                                    assert(before[c2]@ != before[i as int]@);
                                } else {
                                    assert(before[i as int]@ != before[c2]@);
                                }
                            }
                        }
                        assert forall|x: Seq<char>| names_of(before).to_set().remove(id@).contains(x) implies names_of(after).to_set().contains(x) by {
                            let c = choose|c: int| 0 <= c < names_of(before).len() && names_of(before)[c] == x;
                            assert(c != i);
                            let c3 = if c < i { c } else { c - 1 };
                            assert(after[c3] == before[c]);
                            assert(names_of(after)[c3] == x);
                        }
                    }
                }
                return true;
            }
            i = i + 1;
        }
        proof {
            if names_of(self.missing@).contains(id@) {
                let c = choose|c: int| 0 <= c < names_of(self.missing@).len() && names_of(self.missing@)[c] == id@;
                assert(self.missing@[c]@ != id@);
            }
        }
        false
    }

    /// Turns a job whose assets are all ready into a lease. An incomplete job
    /// fails and its reservation goes back to the ledger.
    pub fn finish(self, ledger: &mut BudgetLedger) -> (r: Result<ReadyLease, Diagnostic>)
        requires
            old(ledger).wf(),
            self.wf(),
            old(ledger).outstanding().contains((self.ticket_of(), self.assets_of())),
        ensures
            final(ledger).wf(),
            self.missing_of().len() == 0 ==> match r {
                Ok(lease) => {
                    &&& lease.activation_of() == self.activation_of()
                    &&& lease.generation_of() == self.generation_of()
                    &&& lease.assets_of() == self.assets_of()
                    &&& lease.ticket_of() == self.ticket_of()
                    &&& lease.wf()
                    &&& *final(ledger) == *old(ledger)
                },
                Err(_) => false,
            },
            self.missing_of().len() != 0 ==> fails_with(r, "E_NOT_READY"@, "lease"@, "incomplete resource group"@)
                && released(*old(ledger), self.assets_of(), *final(ledger))
                && exists|i: int| 0 <= i < old(ledger).outstanding().len() && old(ledger).outstanding()[i] == (self.ticket_of(), self.assets_of())
                    && final(ledger).outstanding() == old(ledger).outstanding().remove(i),
    {
        if self.missing.len() != 0 {
            ledger.release(self.reservation);
            return Err(Diagnostic::new("E_NOT_READY", "lease", "incomplete resource group"));
        }
        Ok(ReadyLease { activation: self.activation, generation: self.generation, reservation: self.reservation })
    }

    /// Abandons the job and gives its reservation back to the ledger.
    pub fn cancel(self, ledger: &mut BudgetLedger)
        requires
            old(ledger).wf(),
            self.wf(),
            old(ledger).outstanding().contains((self.ticket_of(), self.assets_of())),
        ensures
            final(ledger).wf(),
            released(*old(ledger), self.assets_of(), *final(ledger)),
            exists|i: int| 0 <= i < old(ledger).outstanding().len() && old(ledger).outstanding()[i] == (self.ticket_of(), self.assets_of())
                && final(ledger).outstanding() == old(ledger).outstanding().remove(i),
    {
        ledger.release(self.reservation);
    }
}

} // verus!
