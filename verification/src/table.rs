//! An indexed table whose declared keys are known before the bodies of its
//! entries are resident.
use crate::strings::str_eq;
use crate::expr::{less, name_less};
use crate::order::lemma_name_order;
use vstd::prelude::*;
use vstd::string::*;

verus! {

/// Declared keys, and the resident values of some of them.
pub struct ContentTable<T> {
    declared: Vec<String>,
    values: Vec<(String, T)>,
}

/// The value stored under `k` in a list of entries with distinct keys.
pub open spec fn entry_value<T>(entries: Seq<(String, T)>, k: Seq<char>) -> Option<T> {
    if exists|i: int| 0 <= i < entries.len() && (#[trigger] entries[i]).0@ == k {
        Some(entries[choose|i: int| 0 <= i < entries.len() && (#[trigger] entries[i]).0@ == k].1)
    } else {
        None
    }
}

/// The keys of a list of entries are distinct.
pub open spec fn entry_keys_unique<T>(entries: Seq<(String, T)>) -> bool {
    forall|i: int, j: int| 0 <= i < j < entries.len() ==> entries[i].0@ != entries[j].0@
}

/// The names of a list are distinct.
pub open spec fn names_unique(v: Seq<String>) -> bool {
    forall|i: int, j: int| 0 <= i < j < v.len() ==> v[i]@ != v[j]@
}

/// The set of names in a list.
pub open spec fn names_in(v: Seq<String>) -> Set<Seq<char>> {
    Set::new(|x: Seq<char>| exists|i: int| 0 <= i < v.len() && (#[trigger] v[i])@ == x)
}

proof fn lemma_entry_value_at<T>(entries: Seq<(String, T)>, i: int)
    requires
        entry_keys_unique(entries),
        0 <= i < entries.len(),
    ensures
        entry_value(entries, entries[i].0@) == Some(entries[i].1),
{
    let k = entries[i].0@;
    let c = choose|c: int| 0 <= c < entries.len() && (#[trigger] entries[c]).0@ == k;
    assert(0 <= c < entries.len() && entries[c].0@ == k);
    if c != i {
        if c < i {
            assert(entries[c].0@ != entries[i].0@);
        } else {
            assert(entries[i].0@ != entries[c].0@);
        }
    }
}

/// The value of the last entry under `k` in a list of entries, if any.
pub open spec fn last_value<T>(entries: Seq<(String, T)>, k: Seq<char>) -> Option<T>
    decreases entries.len(),
{
    if entries.len() == 0 {
        None
    } else if entries.last().0@ == k {
        Some(entries.last().1)
    } else {
        last_value(entries.drop_last(), k)
    }
}

proof fn lemma_entry_value_absent<T>(entries: Seq<(String, T)>, k: Seq<char>)
    requires
        forall|i: int| 0 <= i < entries.len() ==> (#[trigger] entries[i]).0@ != k,
    ensures
        entry_value(entries, k) is None,
{
}

fn find_name(v: &Vec<String>, key: &str) -> (r: bool)
    ensures
        r == names_in(v@).contains(key@),
{
    let mut i: usize = 0;
    while i < v.len()
        invariant
            i <= v@.len(),
            forall|j: int| 0 <= j < i ==> (#[trigger] v@[j])@ != key@,
        decreases v@.len() - i,
    {
        if str_eq(v[i].as_str(), key) {
            return true;
        }
        i = i + 1;
    }
    false
}

fn find_entry<T>(entries: &Vec<(String, T)>, key: &str) -> (r: Option<usize>)
    ensures
        match r {
            Some(j) => j < entries@.len() && entries@[j as int].0@ == key@,
            None => forall|j: int| 0 <= j < entries@.len() ==> (#[trigger] entries@[j]).0@ != key@,
        },
{
    let mut i: usize = 0;
    while i < entries.len()
        invariant
            i <= entries@.len(),
            forall|j: int| 0 <= j < i ==> (#[trigger] entries@[j]).0@ != key@,
        decreases entries@.len() - i,
    {
        if str_eq(entries[i].0.as_str(), key) {
            return Some(i);
        }
        i = i + 1;
    }
    None
}

fn insert_in_order<'a, T>(r: &mut Vec<(&'a String, &'a T)>, key: &'a String, v: &'a T) -> (p: usize)
    requires
        forall|a: int, b: int| 0 <= a < b < old(r)@.len() ==> name_less(old(r)@[a].0@, old(r)@[b].0@),
        forall|j: int| 0 <= j < old(r)@.len() ==> (#[trigger] old(r)@[j]).0@ != key@,
    ensures
        p <= old(r)@.len(),
        final(r)@ == old(r)@.insert(p as int, (key, v)),
        forall|a: int, b: int| 0 <= a < b < final(r)@.len() ==> name_less(final(r)@[a].0@, final(r)@[b].0@),
{
    let ghost before = r@;
    let ghost kv = key@;
    let mut p: usize = 0;
    while p < r.len() && !less(key.as_str(), r[p].0.as_str())
        invariant
            p <= r@.len(),
            r@ == before,
            kv == key@,
            forall|j: int| 0 <= j < p ==> !name_less(kv, #[trigger] r@[j].0@),
        decreases r@.len() - p,
    {
        p = p + 1;
    }
    r.insert(p, (key, v));
    proof {
        assert forall|a: int, b: int| 0 <= a < b < r@.len() implies name_less(r@[a].0@, r@[b].0@) by {
            if a < p && b == p {
                lemma_name_order(before[a].0@, kv, kv);
            } else if a == p && b > p {
                if p < before.len() {
                    lemma_name_order(kv, before[p as int].0@, before[b - 1].0@);
                    lemma_name_order(kv, before[p as int].0@, before[p as int].0@);
                }
            } else if a < p && b > p {
                assert(r@[a] == before[a] && r@[b] == before[b - 1]);
                assert(name_less(before[a].0@, before[b - 1].0@));
            } else if b < p {
                assert(r@[a] == before[a] && r@[b] == before[b]);
            } else {
                assert(r@[a] == before[a - 1] && r@[b] == before[b - 1]);
            }
        }
    }
    p
}

impl<T> ContentTable<T> {
    /// Distinct declared keys, distinct value keys, every value key declared.
    #[verifier::type_invariant]
    closed spec fn inv(self) -> bool {
        &&& names_unique(self.declared@)
        &&& entry_keys_unique(self.values@)
        &&& forall|i: int| 0 <= i < self.values@.len() ==> names_in(self.declared@).contains((#[trigger] self.values@[i]).0@)
    }

    /// The declared keys.
    pub closed spec fn declared_keys(&self) -> Set<Seq<char>> {
        names_in(self.declared@)
    }

    /// The number of declared keys.
    pub closed spec fn declared_len(&self) -> nat {
        self.declared@.len()
    }

    /// The resident value under `k`, if any.
    pub closed spec fn resident(&self, k: Seq<char>) -> Option<T> {
        entry_value(self.values@, k)
    }

    /// The keys that have resident values.
    pub closed spec fn resident_keys(&self) -> Set<Seq<char>> {
        Set::new(|k: Seq<char>| self.resident(k) is Some)
    }

    /// The keys with resident values in ascending order, each once.
    pub closed spec fn key_order(&self) -> Seq<Seq<char>> {
        choose|ks: Seq<Seq<char>>| crate::packaging::strictly_ascending(ks) && ks.to_set() == self.resident_keys()
    }

    /// The number of resident values.
    pub closed spec fn resident_len(&self) -> nat {
        self.values@.len()
    }

    /// An empty table.
    pub fn empty() -> (t: Self)
        ensures
            t.declared_keys() == Set::<Seq<char>>::empty(),
            t.declared_len() == 0,
            forall|k: Seq<char>| #[trigger] t.resident(k) is None,
    {
        let t = ContentTable { declared: Vec::new(), values: Vec::new() };
        proof {
            assert(names_in(t.declared@) =~= Set::<Seq<char>>::empty());
        }
        t
    }

    /// A table whose declared keys are exactly its (resident) entries.
    pub fn from_owned(values: Vec<(String, T)>) -> (t: Self)
        requires
            entry_keys_unique(values@),
        ensures
            t.declared_len() == values@.len(),
            t.resident_len() == values@.len(),
            forall|k: Seq<char>| #[trigger] t.declared_keys().contains(k) <==> entry_value(values@, k) is Some,
            forall|k: Seq<char>| #[trigger] t.resident(k) == entry_value(values@, k),
    {
        let mut declared: Vec<String> = Vec::new();
        let mut i: usize = 0;
        while i < values.len()
            invariant
                i <= values@.len(),
                declared@.len() == i,
                forall|j: int| 0 <= j < i ==> (#[trigger] declared@[j])@ == values@[j].0@,
            decreases values@.len() - i,
        {
            declared.push(values[i].0.clone());
            i = i + 1;
        }
        proof {
            assert forall|k: Seq<char>| #[trigger] names_in(declared@).contains(k) <==> entry_value(values@, k) is Some by {
                if names_in(declared@).contains(k) {
                    let c = choose|c: int| 0 <= c < declared@.len() && (#[trigger] declared@[c])@ == k;
                    assert(values@[c].0@ == k);
                }
                if entry_value(values@, k) is Some {
                    let c = choose|c: int| 0 <= c < values@.len() && (#[trigger] values@[c]).0@ == k;
                    assert(declared@[c]@ == k);
                }
            }
            assert forall|i: int| 0 <= i < values@.len() implies names_in(declared@).contains((#[trigger] values@[i]).0@) by {
                assert(declared@[i]@ == values@[i].0@);
            }
            assert forall|a: int, b: int| 0 <= a < b < declared@.len() implies declared@[a]@ != declared@[b]@ by {
                assert(declared@[a]@ == values@[a].0@);
                assert(declared@[b]@ == values@[b].0@);
            }
        }
        let t = ContentTable { declared, values };
        t
    }

    /// A table with declared keys and no resident values yet.
    pub fn from_index(keys: Vec<String>) -> (t: Self)
        requires
            names_unique(keys@),
        ensures
            t.declared_keys() == names_in(keys@),
            t.declared_len() == keys@.len(),
            forall|k: Seq<char>| #[trigger] t.resident(k) is None,
    {
        ContentTable { declared: keys, values: Vec::new() }
    }

    /// The table with `values` stored, a later entry under a key replacing
    /// an earlier one and any value already resident under that key.
    pub fn with_values(self, values: Vec<(String, T)>) -> (t: Self)
        ensures
            forall|k: Seq<char>| #[trigger] t.declared_keys().contains(k) <==> (self.declared_keys().contains(k) || last_value(values@, k) is Some),
            forall|k: Seq<char>| #[trigger] t.resident(k) == (if last_value(values@, k) is Some { last_value(values@, k) } else { self.resident(k) }),
    {
        proof {
            use_type_invariant(&self);
        }
        let ghost old_self = self;
        let ghost all = values@;
        let ContentTable { declared, values: entries } = self;
        let mut declared = declared;
        let mut entries = entries;
        let mut rest = values;
        let ghost mut n: int = 0;
        while rest.len() > 0
            invariant
                0 <= n <= all.len(),
                rest@ == all.subrange(n, all.len() as int),
                names_unique(declared@),
                entry_keys_unique(entries@),
                forall|i: int| 0 <= i < entries@.len() ==> names_in(declared@).contains((#[trigger] entries@[i]).0@),
                forall|k: Seq<char>| #[trigger] names_in(declared@).contains(k) <==> (old_self.declared_keys().contains(k) || last_value(all.subrange(0, n), k) is Some),
                forall|k: Seq<char>| #[trigger] entry_value(entries@, k) == (if last_value(all.subrange(0, n), k) is Some { last_value(all.subrange(0, n), k) } else { old_self.resident(k) }),
            decreases rest@.len(),
        {
            let ghost before_decl = declared@;
            let ghost before_entries = entries@;
            let (key, value) = rest.remove(0);
            proof {
                assert(all[n] == (key, value));
                assert(all.subrange(0, n + 1).drop_last() =~= all.subrange(0, n));
                assert(all.subrange(0, n + 1).last() == all[n]);
            }
            if !find_name(&declared, key.as_str()) {
                declared.push(key.clone());
                proof {
                    assert forall|a: int, b: int| 0 <= a < b < declared@.len() implies declared@[a]@ != declared@[b]@ by {
                        if b == declared@.len() - 1 {
                            assert(before_decl[a] == declared@[a]);
                            assert(names_in(before_decl).contains(before_decl[a]@));
                        }
                    }
                    assert forall|x: Seq<char>| names_in(before_decl).contains(x) implies #[trigger] names_in(declared@).contains(x) by {
                        let c = choose|c: int| 0 <= c < before_decl.len() && (#[trigger] before_decl[c])@ == x;
                        assert(declared@[c] == before_decl[c]);
                    }
                    assert(declared@[declared@.len() - 1]@ == key@);
                    assert(names_in(declared@).contains(key@));
                    assert forall|x: Seq<char>| #[trigger] names_in(declared@).contains(x) implies names_in(before_decl).contains(x) || x == key@ by {
                        let c = choose|c: int| 0 <= c < declared@.len() && (#[trigger] declared@[c])@ == x;
                        if c < before_decl.len() {
                            assert(before_decl[c] == declared@[c]);
                        }
                    }
                }
            } else {
                proof {
                    assert(names_in(declared@) == names_in(before_decl));
                }
            }
            proof {
                assert forall|x: Seq<char>| #[trigger] names_in(declared@).contains(x) <==> (names_in(before_decl).contains(x) || x == key@) by {
                }
            }
            match find_entry(&entries, key.as_str()) {
                Some(j) => {
                    entries.set(j, (key, value));
                    proof {
                        assert forall|a: int, b: int| 0 <= a < b < entries@.len() implies entries@[a].0@ != entries@[b].0@ by {
                            assert(before_entries[a].0@ != before_entries[b].0@);
                        }
                        assert forall|x: Seq<char>| #[trigger] entry_value(entries@, x) == (if x == all[n].0@ { Some(all[n].1) } else { entry_value(before_entries, x) }) by {
                            if x == all[n].0@ {
                                lemma_entry_value_at(entries@, j as int);
                            } else if exists|i: int| 0 <= i < before_entries.len() && (#[trigger] before_entries[i]).0@ == x {
                                let i = choose|i: int| 0 <= i < before_entries.len() && (#[trigger] before_entries[i]).0@ == x;
                                lemma_entry_value_at(before_entries, i);
                                assert(entries@[i] == before_entries[i]);
                                lemma_entry_value_at(entries@, i);
                            } else {
                                assert forall|i: int| 0 <= i < entries@.len() implies (#[trigger] entries@[i]).0@ != x by {
                                    if i != j {
                                        assert(entries@[i] == before_entries[i]);
                                    }
                                }
                                lemma_entry_value_absent(entries@, x);
                            }
                        }
                    }
                },
                None => {
                    entries.push((key, value));
                    proof {
                        assert forall|x: Seq<char>| #[trigger] entry_value(entries@, x) == (if x == all[n].0@ { Some(all[n].1) } else { entry_value(before_entries, x) }) by {
                            if x == all[n].0@ {
                                lemma_entry_value_at(entries@, entries@.len() - 1);
                            } else if exists|i: int| 0 <= i < before_entries.len() && (#[trigger] before_entries[i]).0@ == x {
                                let i = choose|i: int| 0 <= i < before_entries.len() && (#[trigger] before_entries[i]).0@ == x;
                                lemma_entry_value_at(before_entries, i);
                                assert(entries@[i] == before_entries[i]);
                                lemma_entry_value_at(entries@, i);
                            } else {
                                assert forall|i: int| 0 <= i < entries@.len() implies (#[trigger] entries@[i]).0@ != x by {
                                    if i < before_entries.len() {
                                        assert(entries@[i] == before_entries[i]);
                                    }
                                }
                                lemma_entry_value_absent(entries@, x);
                            }
                        }
                    }
                },
            }
            proof {
                assert forall|i: int| 0 <= i < entries@.len() implies names_in(declared@).contains((#[trigger] entries@[i]).0@) by {
                    if entries@[i].0@ != all[n].0@ {
                        assert(exists|c: int| 0 <= c < before_entries.len() && before_entries[c] == entries@[i]);
                        let c = choose|c: int| 0 <= c < before_entries.len() && before_entries[c] == entries@[i];
                        assert(names_in(before_decl).contains((before_entries[c]).0@));
                    }
                }
                n = n + 1;
            }
        }
        proof {
            assert(all.subrange(0, n) =~= all);
        }
        ContentTable { declared, values: entries }
    }

    /// The table with the values under `removed` no longer resident; the
    /// declared keys stay.
    pub fn without_values(self, removed: &Vec<String>) -> (t: Self)
        ensures
            t.declared_keys() == self.declared_keys(),
            t.declared_len() == self.declared_len(),
            forall|k: Seq<char>| #[trigger] t.resident(k) == (if names_in(removed@).contains(k) { None } else { self.resident(k) }),
    {
        proof {
            use_type_invariant(&self);
        }
        let ghost old_self = self;
        let ContentTable { declared, values: entries } = self;
        let ghost all = entries@;
        let mut rest = entries;
        let mut kept: Vec<(String, T)> = Vec::new();
        let ghost mut n: int = 0;
        while rest.len() > 0
            invariant
                0 <= n <= all.len(),
                all == old_self.values@,
                entry_keys_unique(all),
                rest@ == all.subrange(n, all.len() as int),
                entry_keys_unique(kept@),
                forall|j: int| 0 <= j < kept@.len() ==> exists|i: int| 0 <= i < n && all[i] == #[trigger] kept@[j],
                forall|j: int| 0 <= j < kept@.len() ==> !names_in(removed@).contains((#[trigger] kept@[j]).0@),
                forall|i: int| 0 <= i < n && !names_in(removed@).contains((#[trigger] all[i]).0@) ==> exists|j: int| 0 <= j < kept@.len() && kept@[j] == all[i],
            decreases rest@.len(),
        {
            let ghost before = kept@;
            let entry = rest.remove(0);
            proof {
                assert(entry == all[n]);
            }
            if !find_name(removed, entry.0.as_str()) {
                kept.push(entry);
                proof {
                    assert forall|a: int, b: int| 0 <= a < b < kept@.len() implies kept@[a].0@ != kept@[b].0@ by {
                        if b == kept@.len() - 1 {
                            assert(kept@[a] == before[a]);
                            let i = choose|i: int| 0 <= i < n && all[i] == #[trigger] before[a];
                            assert(all[i].0@ != all[n].0@);
                        }
                    }
                    assert forall|j: int| 0 <= j < kept@.len() implies exists|i: int| 0 <= i < n + 1 && all[i] == #[trigger] kept@[j] by {
                        if j < before.len() {
                            assert(kept@[j] == before[j]);
                            let i = choose|i: int| 0 <= i < n && all[i] == #[trigger] before[j];
                            assert(all[i] == kept@[j]);
                        } else {
                            assert(all[n] == kept@[j]);
                        }
                    }
                    assert forall|i: int| 0 <= i < n + 1 && !names_in(removed@).contains((#[trigger] all[i]).0@) implies exists|j: int| 0 <= j < kept@.len() && kept@[j] == all[i] by {
                        if i < n {
                            let j = choose|j: int| 0 <= j < before.len() && before[j] == all[i];
                            assert(kept@[j] == before[j]);
                        } else {
                            assert(kept@[kept@.len() - 1] == all[i]);
                        }
                    }
                }
            } else {
                proof {
                    assert forall|j: int| 0 <= j < kept@.len() implies exists|i: int| 0 <= i < n + 1 && all[i] == #[trigger] kept@[j] by {
                        let i = choose|i: int| 0 <= i < n && all[i] == #[trigger] kept@[j];
                        assert(all[i] == kept@[j]);
                    }
                }
            }
            proof {
                n = n + 1;
            }
        }
        proof {
            assert forall|k: Seq<char>| #[trigger] entry_value(kept@, k) == (if names_in(removed@).contains(k) { None } else { entry_value(all, k) }) by {
                if exists|j: int| 0 <= j < kept@.len() && (#[trigger] kept@[j]).0@ == k {
                    let j = choose|j: int| 0 <= j < kept@.len() && (#[trigger] kept@[j]).0@ == k;
                    lemma_entry_value_at(kept@, j);
                    let i = choose|i: int| 0 <= i < n && all[i] == #[trigger] kept@[j];
                    lemma_entry_value_at(all, i);
                } else {
                    lemma_entry_value_absent(kept@, k);
                    if !names_in(removed@).contains(k) {
                        assert forall|i: int| 0 <= i < all.len() implies (#[trigger] all[i]).0@ != k by {
                            if all[i].0@ == k {
                                let j = choose|j: int| 0 <= j < kept@.len() && kept@[j] == all[i];
                                assert(kept@[j].0@ == k);
                            }
                        }
                        lemma_entry_value_absent(all, k);
                    }
                }
            }
            assert forall|i: int| 0 <= i < kept@.len() implies names_in(declared@).contains((#[trigger] kept@[i]).0@) by {
                let c = choose|c: int| 0 <= c < n && all[c] == #[trigger] kept@[i];
                assert(names_in(declared@).contains(all[c].0@));
            }
        }
        ContentTable { declared, values: kept }
    }

    /// The resident value under `key`.
    pub fn get(&self, key: &str) -> (r: Option<&T>)
        ensures
            match r {
                Some(v) => self.resident(key@) == Some(*v) && self.declared_keys().contains(key@),
                None => self.resident(key@) is None,
            },
    {
        proof {
            use_type_invariant(self);
        }
        let mut i: usize = 0;
        while i < self.values.len()
            invariant
                i <= self.values@.len(),
                entry_keys_unique(self.values@),
                forall|q: int| 0 <= q < self.values@.len() ==> names_in(self.declared@).contains((#[trigger] self.values@[q]).0@),
                forall|j: int| 0 <= j < i ==> (#[trigger] self.values@[j]).0@ != key@,
            decreases self.values@.len() - i,
        {
            if str_eq(self.values[i].0.as_str(), key) {
                proof {
                    lemma_entry_value_at(self.values@, i as int);
                    assert(names_in(self.declared@).contains(self.values@[i as int].0@));
                }
                return Some(&self.values[i].1);
            }
            i = i + 1;
        }
        None
    }

    /// `key` is declared, whether or not its value is resident.
    pub fn contains_key(&self, key: &str) -> (r: bool)
        ensures
            r == self.declared_keys().contains(key@),
    {
        let mut i: usize = 0;
        while i < self.declared.len()
            invariant
                i <= self.declared@.len(),
                forall|j: int| 0 <= j < i ==> (#[trigger] self.declared@[j])@ != key@,
            decreases self.declared@.len() - i,
        {
            if str_eq(self.declared[i].as_str(), key) {
                return true;
            }
            i = i + 1;
        }
        false
    }

    /// The declared keys.
    pub fn keys(&self) -> (r: &Vec<String>)
        ensures
            names_in(r@) == self.declared_keys(),
            r@.len() == self.declared_len(),
            names_unique(r@),
    {
        proof {
            use_type_invariant(self);
        }
        &self.declared
    }

    /// The resident values, in ascending key order.
    pub fn values(&self) -> (r: Vec<&T>)
        ensures
            r@.len() == self.resident_len(),
            r@.len() == self.key_order().len(),
            forall|i: int| 0 <= i < r@.len() ==> self.resident(self.key_order()[i]) == Some(*(#[trigger] r@[i])),
            exists|ks: Seq<Seq<char>>| {
                &&& ks.len() == r@.len()
                &&& forall|i: int, j: int| 0 <= i < j < ks.len() ==> name_less(#[trigger] ks[i], #[trigger] ks[j])
                &&& forall|i: int| 0 <= i < ks.len() ==> self.resident(#[trigger] ks[i]) == Some(*r@[i])
                &&& forall|k: Seq<char>| #[trigger] self.resident(k) is Some ==> ks.contains(k)
            },
    {
        let entries = self.iter();
        let mut r: Vec<&T> = Vec::new();
        let mut i: usize = 0;
        while i < entries.len()
            invariant
                i <= entries@.len(),
                r@.len() == i,
                forall|j: int| 0 <= j < i ==> *r@[j] == *entries@[j].1,
            decreases entries@.len() - i,
        {
            r.push(entries[i].1);
            i = i + 1;
        }
        proof {
            let ks = entries@.map_values(|e: (&String, &T)| e.0@);
            assert forall|i: int| 0 <= i < r@.len() implies self.resident(self.key_order()[i]) == Some(*(#[trigger] r@[i])) by {
                assert(self.key_order()[i] == entries@[i].0@);
            }
            assert forall|i: int, j: int| 0 <= i < j < ks.len() implies name_less(#[trigger] ks[i], #[trigger] ks[j]) by {
                assert(name_less(entries@[i].0@, entries@[j].0@));
            }
            assert forall|i: int| 0 <= i < ks.len() implies self.resident(#[trigger] ks[i]) == Some(*r@[i]) by {
                assert(self.resident(entries@[i].0@) == Some(*entries@[i].1));
            }
            assert forall|k: Seq<char>| #[trigger] self.resident(k) is Some implies ks.contains(k) by {
                let i = choose|i: int| 0 <= i < entries@.len() && entries@[i].0@ == k;
                assert(ks[i] == k);
            }
        }
        r
    }

    /// The resident entries in ascending key order, each once.
    pub fn iter(&self) -> (r: Vec<(&String, &T)>)
        ensures
            r@.len() == self.resident_len(),
            r@.len() == self.key_order().len(),
            forall|i: int| 0 <= i < r@.len() ==> (#[trigger] r@[i]).0@ == self.key_order()[i],
            forall|i: int, j: int| 0 <= i < j < r@.len() ==> name_less(r@[i].0@, r@[j].0@),
            forall|i: int| 0 <= i < r@.len() ==> self.resident((#[trigger] r@[i]).0@) == Some(*r@[i].1),
            forall|k: Seq<char>| #[trigger] self.resident(k) is Some ==> exists|i: int| 0 <= i < r@.len() && r@[i].0@ == k,
    {
        proof {
            use_type_invariant(self);
        }
        let mut r: Vec<(&String, &T)> = Vec::new();
        let mut i: usize = 0;
        while i < self.values.len()
            invariant
                i <= self.values@.len(),
                entry_keys_unique(self.values@),
                r@.len() == i,
                forall|a: int, b: int| 0 <= a < b < r@.len() ==> name_less(r@[a].0@, r@[b].0@),
                forall|j: int| 0 <= j < r@.len() ==> exists|m: int| 0 <= m < i && *(#[trigger] r@[j]).0 == self.values@[m].0 && *r@[j].1 == self.values@[m].1,
                forall|m: int| 0 <= m < i ==> exists|j: int| 0 <= j < r@.len() && r@[j].0@ == (#[trigger] self.values@[m]).0@,
            decreases self.values@.len() - i,
        {
            let key = &self.values[i].0;
            let ghost kv = key@;
            let ghost before = r@;
            proof {
                assert forall|j: int| 0 <= j < before.len() implies before[j].0@ != kv by {
                    let m = choose|m: int| 0 <= m < i && *(#[trigger] before[j]).0 == self.values@[m].0 && *before[j].1 == self.values@[m].1;
                    assert(self.values@[m].0@ != self.values@[i as int].0@);
                }
            }
            let p = insert_in_order(&mut r, key, &self.values[i].1);
            proof {
                assert forall|j: int| 0 <= j < r@.len() implies exists|m: int| 0 <= m < i + 1 && *(#[trigger] r@[j]).0 == self.values@[m].0 && *r@[j].1 == self.values@[m].1 by {
                    if j < p {
                        assert(r@[j] == before[j]);
                        let m = choose|m: int| 0 <= m < i && *(#[trigger] before[j]).0 == self.values@[m].0 && *before[j].1 == self.values@[m].1;
                    } else if j > p {
                        assert(r@[j] == before[j - 1]);
                        let m = choose|m: int| 0 <= m < i && *(#[trigger] before[j - 1]).0 == self.values@[m].0 && *before[j - 1].1 == self.values@[m].1;
                    } else {
                        assert(*r@[j].0 == self.values@[i as int].0);
                    }
                }
                assert forall|m: int| 0 <= m < i + 1 implies exists|j: int| 0 <= j < r@.len() && r@[j].0@ == (#[trigger] self.values@[m]).0@ by {
                    if m < i {
                        let j = choose|j: int| 0 <= j < before.len() && before[j].0@ == self.values@[m].0@;
                        if j < p {
                            assert(r@[j] == before[j]);
                        } else {
                            assert(r@[j + 1] == before[j]);
                        }
                    } else {
                        assert(r@[p as int].0@ == kv);
                    }
                }
            }
            i = i + 1;
        }
        proof {
            assert forall|j: int| 0 <= j < r@.len() implies self.resident((#[trigger] r@[j]).0@) == Some(*r@[j].1) by {
                let m = choose|m: int| 0 <= m < self.values@.len() && *(#[trigger] r@[j]).0 == self.values@[m].0 && *r@[j].1 == self.values@[m].1;
                lemma_entry_value_at(self.values@, m);
            }
            assert forall|k: Seq<char>| #[trigger] self.resident(k) is Some implies exists|i: int| 0 <= i < r@.len() && r@[i].0@ == k by {
                let m = choose|m: int| 0 <= m < self.values@.len() && (#[trigger] self.values@[m]).0@ == k;
                assert(self.values@[m].0@ == k);
            }
            let ks = r@.map_values(|e: (&String, &T)| e.0@);
            assert(crate::packaging::strictly_ascending(ks)) by {
                assert forall|a: int, b: int| 0 <= a < b < ks.len() implies name_less(#[trigger] ks[a], #[trigger] ks[b]) by {
                    assert(name_less(r@[a].0@, r@[b].0@));
                }
            }
            assert(ks.to_set() =~= self.resident_keys()) by {
                assert forall|k: Seq<char>| ks.to_set().contains(k) <==> self.resident_keys().contains(k) by {
                    if ks.to_set().contains(k) {
                        let i = choose|i: int| 0 <= i < ks.len() && ks[i] == k;
                        assert(self.resident(r@[i].0@) == Some(*r@[i].1));
                    }
                    if self.resident_keys().contains(k) {
                        assert(self.resident(k) is Some);
                        let i = choose|i: int| 0 <= i < r@.len() && r@[i].0@ == k;
                        assert(ks[i] == k);
                    }
                }
            }
            let ko = self.key_order();
            assert(crate::packaging::strictly_ascending(ko) && ko.to_set() == self.resident_keys());
            crate::packaging::lemma_sorted_unique(ks, ko);
            assert forall|i: int| 0 <= i < r@.len() implies (#[trigger] r@[i]).0@ == self.key_order()[i] by {
                assert(ks[i] == r@[i].0@);
            }
        }
        r
    }

    /// The number of declared keys.
    pub fn len(&self) -> (n: usize)
        ensures
            n == self.declared_len(),
    {
        self.declared.len()
    }

    /// No key is declared.
    pub fn is_empty(&self) -> (b: bool)
        ensures
            b == (self.declared_len() == 0),
    {
        self.declared.len() == 0
    }
}

} // verus!
