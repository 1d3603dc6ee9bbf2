//! Lists of named entries used as maps: the first entry under a name is the
//! one that counts, and an update replaces it or adds a new entry.
use crate::strings::str_eq;
use crate::table::names_in;
use vstd::prelude::*;

verus! {

/// The value of the first entry named `k`.
pub open spec fn assoc<T>(v: Seq<(String, T)>, k: Seq<char>) -> Option<T>
    decreases v.len(),
{
    if v.len() == 0 {
        None
    } else if v[0].0@ == k {
        Some(v[0].1)
    } else {
        assoc(v.drop_first(), k)
    }
}

/// The names of a list of entries.
pub open spec fn assoc_keys<T>(v: Seq<(String, T)>) -> Set<Seq<char>> {
    Set::new(|k: Seq<char>| exists|i: int| 0 <= i < v.len() && (#[trigger] v[i]).0@ == k)
}

pub proof fn lemma_assoc_first<T>(v: Seq<(String, T)>, k: Seq<char>, i: int)
    requires
        0 <= i < v.len(),
        v[i].0@ == k,
        forall|j: int| 0 <= j < i ==> (#[trigger] v[j]).0@ != k,
    ensures
        assoc(v, k) == Some(v[i].1),
    decreases i,
{
    if i > 0 {
        lemma_assoc_first(v.drop_first(), k, i - 1);
    }
}

pub proof fn lemma_assoc_absent<T>(v: Seq<(String, T)>, k: Seq<char>)
    requires
        forall|j: int| 0 <= j < v.len() ==> (#[trigger] v[j]).0@ != k,
    ensures
        assoc(v, k) is None,
    decreases v.len(),
{
    if v.len() > 0 {
        assert(v[0].0@ != k);
        lemma_assoc_absent(v.drop_first(), k);
    }
}

/// `assoc` finds an entry exactly when the name occurs.
pub proof fn lemma_assoc_some<T>(v: Seq<(String, T)>, k: Seq<char>)
    ensures
        assoc(v, k) is Some <==> assoc_keys(v).contains(k),
    decreases v.len(),
{
    if v.len() > 0 {
        lemma_assoc_some(v.drop_first(), k);
        if assoc_keys(v.drop_first()).contains(k) {
            let j = choose|j: int| 0 <= j < v.drop_first().len() && (#[trigger] v.drop_first()[j]).0@ == k;
            assert(v[j + 1].0@ == k);
        }
        if assoc_keys(v).contains(k) && v[0].0@ != k {
            let j = choose|j: int| 0 <= j < v.len() && (#[trigger] v[j]).0@ == k;
            assert(v.drop_first()[j - 1].0@ == k);
        }
    } else {
        assert(!assoc_keys(v).contains(k));
    }
}

pub proof fn lemma_assoc_update<T>(v: Seq<(String, T)>, i: int, key: String, x: T, other: Seq<char>)
    requires
        0 <= i < v.len(),
        v[i].0@ == key@,
        forall|j: int| 0 <= j < i ==> (#[trigger] v[j]).0@ != key@,
    ensures
        assoc(v.update(i, (key, x)), key@) == Some(x),
        other != key@ ==> assoc(v.update(i, (key, x)), other) == assoc(v, other),
    decreases i,
{
    if i > 0 {
        lemma_assoc_update(v.drop_first(), i - 1, key, x, other);
        assert(v.update(i, (key, x)).drop_first() =~= v.drop_first().update(i - 1, (key, x)));
    } else {
        assert(v.update(i, (key, x)).drop_first() =~= v.drop_first());
    }
}

pub proof fn lemma_assoc_push<T>(v: Seq<(String, T)>, key: String, x: T, other: Seq<char>)
    requires
        forall|j: int| 0 <= j < v.len() ==> (#[trigger] v[j]).0@ != key@,
    ensures
        assoc(v.push((key, x)), key@) == Some(x),
        other != key@ ==> assoc(v.push((key, x)), other) == assoc(v, other),
    decreases v.len(),
{
    let pushed = v.push((key, x));
    if v.len() > 0 {
        assert(pushed[0] == v[0]);
        lemma_assoc_push(v.drop_first(), key, x, other);
        assert(pushed.drop_first() =~= v.drop_first().push((key, x)));
        if other != key@ && v[0].0@ != other {
            assert(assoc(pushed, other) == assoc(pushed.drop_first(), other));
            assert(assoc(v, other) == assoc(v.drop_first(), other));
        }
    } else {
        assert(pushed.drop_first() =~= Seq::<(String, T)>::empty());
    }
}

/// The index of the first entry named `k`.
pub fn position_of<T>(v: &Vec<(String, T)>, k: &str) -> (r: Option<usize>)
    ensures
        match r {
            Some(i) => i < v@.len() && v@[i as int].0@ == k@ && assoc(v@, k@) == Some(v@[i as int].1)
                && forall|j: int| 0 <= j < i ==> (#[trigger] v@[j]).0@ != k@,
            None => assoc(v@, k@) is None && !assoc_keys(v@).contains(k@),
        },
{
    let mut i: usize = 0;
    while i < v.len()
        invariant
            i <= v@.len(),
            forall|j: int| 0 <= j < i ==> (#[trigger] v@[j]).0@ != k@,
        decreases v@.len() - i,
    {
        if str_eq(v[i].0.as_str(), k) {
            proof {
                lemma_assoc_first(v@, k@, i as int);
            }
            return Some(i);
        }
        i = i + 1;
    }
    proof {
        lemma_assoc_absent(v@, k@);
        lemma_assoc_some(v@, k@);
    }
    None
}

/// The value of the first entry named `k`.
pub fn get_entry<'a, T>(v: &'a Vec<(String, T)>, k: &str) -> (r: Option<&'a T>)
    ensures
        match r {
            Some(x) => assoc(v@, k@) == Some(*x),
            None => assoc(v@, k@) is None,
        },
{
    match position_of(v, k) {
        Some(i) => Some(&v[i].1),
        None => None,
    }
}

/// Stores `x` under `key`: replaces the first entry of that name, or adds one.
pub fn put_entry<T>(v: &mut Vec<(String, T)>, key: String, x: T)
    ensures
        assoc(final(v)@, key@) == Some(x),
        forall|other: Seq<char>| other != key@ ==> #[trigger] assoc(final(v)@, other) == assoc(old(v)@, other),
        assoc_keys(final(v)@) == assoc_keys(old(v)@).insert(key@),
        assoc_keys(old(v)@).contains(key@) ==> final(v)@.len() == old(v)@.len(),
        !assoc_keys(old(v)@).contains(key@) ==> final(v)@ == old(v)@.push((key, x)),
{
    match position_of(v, key.as_str()) {
        Some(i) => {
            proof {
                assert forall|other: Seq<char>| other != key@ implies #[trigger] assoc(old(v)@.update(i as int, (key, x)), other) == assoc(old(v)@, other) by {
                    lemma_assoc_update(old(v)@, i as int, key, x, other);
                }
                lemma_assoc_update(old(v)@, i as int, key, x, key@);
                let nv = old(v)@.update(i as int, (key, x));
                assert(assoc_keys(nv) =~= assoc_keys(old(v)@).insert(key@)) by {
                    assert forall|k: Seq<char>| assoc_keys(nv).contains(k) <==> assoc_keys(old(v)@).insert(key@).contains(k) by {
                        if assoc_keys(nv).contains(k) {
                            let j = choose|j: int| 0 <= j < nv.len() && (#[trigger] nv[j]).0@ == k;
                            if j != i {
                                assert(old(v)@[j] == nv[j]);
                            }
                        }
                        if assoc_keys(old(v)@).contains(k) {
                            let j = choose|j: int| 0 <= j < old(v)@.len() && (#[trigger] old(v)@[j]).0@ == k;
                            if j != i {
                                assert(old(v)@[j] == nv[j]);
                            } else {
                                assert(nv[j].0@ == key@);
                            }
                        }
                        if k == key@ {
                            assert(nv[i as int].0@ == key@);
                        }
                    }
                }
            }
            v.set(i, (key, x));
        },
        None => {
            proof {
                assert forall|j: int| 0 <= j < old(v)@.len() implies (#[trigger] old(v)@[j]).0@ != key@ by {
                    if old(v)@[j].0@ == key@ {
                        assert(assoc_keys(old(v)@).contains(key@));
                    }
                }
                assert forall|other: Seq<char>| other != key@ implies #[trigger] assoc(old(v)@.push((key, x)), other) == assoc(old(v)@, other) by {
                    lemma_assoc_push(old(v)@, key, x, other);
                }
                lemma_assoc_push(old(v)@, key, x, key@);
                let nv = old(v)@.push((key, x));
                assert(assoc_keys(nv) =~= assoc_keys(old(v)@).insert(key@)) by {
                    assert forall|k: Seq<char>| assoc_keys(nv).contains(k) <==> assoc_keys(old(v)@).insert(key@).contains(k) by {
                        if assoc_keys(nv).contains(k) {
                            let j = choose|j: int| 0 <= j < nv.len() && (#[trigger] nv[j]).0@ == k;
                            if j < old(v)@.len() {
                                assert(old(v)@[j] == nv[j]);
                            }
                        }
                        if assoc_keys(old(v)@).contains(k) {
                            let j = choose|j: int| 0 <= j < old(v)@.len() && (#[trigger] old(v)@[j]).0@ == k;
                            assert(old(v)@[j] == nv[j]);
                        }
                        if k == key@ {
                            assert(nv[old(v)@.len() as int].0@ == key@);
                        }
                    }
                }
            }
            v.push((key, x));
        },
    }
}

/// `after` is `before` with the entry of `id` replaced by `x`.
pub open spec fn replaced<T>(after: Seq<(String, T)>, before: Seq<(String, T)>, id: Seq<char>, x: T) -> bool {
    &&& assoc(after, id) == Some(x)
    &&& forall|k: Seq<char>| k != id ==> #[trigger] assoc(after, k) == assoc(before, k)
    &&& assoc_keys(after) == assoc_keys(before)
}

/// `after` is `before` with `x` stored under `id`, which may be a new name.
pub open spec fn stored<T>(after: Seq<(String, T)>, before: Seq<(String, T)>, id: Seq<char>, x: T) -> bool {
    &&& assoc(after, id) == Some(x)
    &&& forall|k: Seq<char>| k != id ==> #[trigger] assoc(after, k) == assoc(before, k)
    &&& assoc_keys(after) == assoc_keys(before).insert(id)
}

/// Putting back, at the first position of its name, an entry taken out of a
/// list replaces that name's value and nothing else.
pub proof fn lemma_put_back<T>(v: Seq<(String, T)>, i: int, k: String, x: T)
    requires
        0 <= i < v.len(),
        v[i].0 == k,
        forall|j: int| 0 <= j < i ==> (#[trigger] v[j]).0@ != k@,
    ensures
        replaced(v.remove(i).insert(i, (k, x)), v, k@, x),
        v.remove(i).insert(i, (k, x)) == v.update(i, (k, x)),
{
    let nv = v.update(i, (k, x));
    assert(v.remove(i).insert(i, (k, x)) =~= nv);
    assert forall|other: Seq<char>| other != k@ implies #[trigger] assoc(nv, other) == assoc(v, other) by {
        lemma_assoc_update(v, i, k, x, other);
    }
    lemma_assoc_update(v, i, k, x, k@);
    assert forall|q: Seq<char>| assoc_keys(nv).contains(q) <==> assoc_keys(v).contains(q) by {
        if assoc_keys(nv).contains(q) {
            let j = choose|j: int| 0 <= j < nv.len() && (#[trigger] nv[j]).0@ == q;
            if j != i {
                assert(v[j] == nv[j]);
            } else {
                assert(v[i].0@ == q);
            }
        }
        if assoc_keys(v).contains(q) {
            let j = choose|j: int| 0 <= j < v.len() && (#[trigger] v[j]).0@ == q;
            if j != i {
                assert(v[j] == nv[j]);
            } else {
                assert(nv[i].0@ == q);
            }
        }
    }
    assert(assoc_keys(nv) =~= assoc_keys(v));
}

/// Adds a name to a list used as a set of names.
pub fn add_name(v: &mut Vec<String>, x: String)
    ensures
        names_in(final(v)@) == names_in(old(v)@).insert(x@),
{
    let mut i: usize = 0;
    while i < v.len()
        invariant
            i <= v@.len(),
            forall|j: int| 0 <= j < i ==> (#[trigger] v@[j])@ != x@,
        decreases v@.len() - i,
    {
        if str_eq(v[i].as_str(), x.as_str()) {
            proof {
                assert(names_in(v@).contains(x@));
                assert(names_in(v@) =~= names_in(v@).insert(x@));
            }
            return;
        }
        i = i + 1;
    }
    let ghost before = v@;
    v.push(x);
    proof {
        assert forall|q: Seq<char>| names_in(v@).contains(q) <==> names_in(before).insert(x@).contains(q) by {
            if names_in(v@).contains(q) {
                let j = choose|j: int| 0 <= j < v@.len() && (#[trigger] v@[j])@ == q;
                if j < before.len() {
                    assert(before[j] == v@[j]);
                }
            }
            if names_in(before).contains(q) {
                let j = choose|j: int| 0 <= j < before.len() && (#[trigger] before[j])@ == q;
                assert(v@[j] == before[j]);
            }
            if q == x@ {
                assert(v@[before.len() as int]@ == x@);
            }
        }
        assert(names_in(v@) =~= names_in(before).insert(x@));
    }
}

/// Two lists hold the same names.
pub fn same_names(a: &Vec<String>, b: &Vec<String>) -> (r: bool)
    ensures
        r == (names_in(a@) == names_in(b@)),
{
    let mut i: usize = 0;
    while i < a.len()
        invariant
            i <= a@.len(),
            forall|j: int| 0 <= j < i ==> names_in(b@).contains((#[trigger] a@[j])@),
        decreases a@.len() - i,
    {
        if !contains_name(b, a[i].as_str()) {
            proof {
                assert(names_in(a@).contains(a@[i as int]@));
            }
            return false;
        }
        i = i + 1;
    }
    let mut k: usize = 0;
    while k < b.len()
        invariant
            k <= b@.len(),
            forall|j: int| 0 <= j < a@.len() ==> names_in(b@).contains((#[trigger] a@[j])@),
            forall|j: int| 0 <= j < k ==> names_in(a@).contains((#[trigger] b@[j])@),
        decreases b@.len() - k,
    {
        if !contains_name(a, b[k].as_str()) {
            proof {
                assert(names_in(b@).contains(b@[k as int]@));
            }
            return false;
        }
        k = k + 1;
    }
    proof {
        assert forall|q: Seq<char>| names_in(a@).contains(q) <==> names_in(b@).contains(q) by {
            if names_in(a@).contains(q) {
                let j = choose|j: int| 0 <= j < a@.len() && (#[trigger] a@[j])@ == q;
            }
            if names_in(b@).contains(q) {
                let j = choose|j: int| 0 <= j < b@.len() && (#[trigger] b@[j])@ == q;
            }
        }
        assert(names_in(a@) =~= names_in(b@));
    }
    true
}

/// The list holds `x`.
pub fn contains_name(v: &Vec<String>, x: &str) -> (r: bool)
    ensures
        r == names_in(v@).contains(x@),
{
    let mut i: usize = 0;
    while i < v.len()
        invariant
            i <= v@.len(),
            forall|j: int| 0 <= j < i ==> (#[trigger] v@[j])@ != x@,
        decreases v@.len() - i,
    {
        if str_eq(v[i].as_str(), x) {
            return true;
        }
        i = i + 1;
    }
    false
}

/// No two entries of `v` hold the same name.
pub open spec fn distinct_names(v: Seq<String>) -> bool {
    forall|a: int, b: int| 0 <= a < b < v.len() ==> (#[trigger] v[a])@ != (#[trigger] v[b])@
}

/// Whether no two entries of the list hold the same name.
pub fn names_distinct(v: &Vec<String>) -> (r: bool)
    ensures
        r == distinct_names(v@),
{
    let mut i: usize = 0;
    while i < v.len()
        invariant
            i <= v@.len(),
            forall|a: int, b: int| 0 <= a < b < v@.len() && a < i ==> (#[trigger] v@[a])@ != (#[trigger] v@[b])@,
        decreases v@.len() - i,
    {
        let mut j: usize = i + 1;
        while j < v.len()
            invariant
                i < j <= v@.len(),
                forall|a: int, b: int| 0 <= a < b < v@.len() && a < i ==> (#[trigger] v@[a])@ != (#[trigger] v@[b])@,
                forall|b: int| i < b < j ==> v@[i as int]@ != (#[trigger] v@[b])@,
            decreases v@.len() - j,
        {
            if str_eq(v[i].as_str(), v[j].as_str()) {
                return false;
            }
            j = j + 1;
        }
        i = i + 1;
    }
    true
}

} // verus!
