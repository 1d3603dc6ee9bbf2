//! Key order of named tables: the byte order of names, and tables kept in
//! ascending key order with one entry per key.
use crate::expr::{less, lemma_bytes_less_total, lemma_bytes_less_trans, name_less};
use crate::strings::{lemma_utf8_injective, str_eq};
use vstd::prelude::*;

verus! {

/// A table of named text values, as views.
pub type NamedText = Seq<(Seq<char>, Seq<char>)>;

/// The name order is a strict total order.
pub proof fn lemma_name_order(a: Seq<char>, b: Seq<char>, c: Seq<char>)
    ensures
        !name_less(a, a),
        name_less(a, b) ==> !name_less(b, a),
        a != b ==> name_less(a, b) || name_less(b, a),
        name_less(a, b) && name_less(b, c) ==> name_less(a, c),
{
    lemma_bytes_less_total(crate::strings::utf8_bytes(a), crate::strings::utf8_bytes(a));
    lemma_bytes_less_total(crate::strings::utf8_bytes(a), crate::strings::utf8_bytes(b));
    if a != b && crate::strings::utf8_bytes(a) == crate::strings::utf8_bytes(b) {
        lemma_utf8_injective(a, b);
    }
    if name_less(a, b) && name_less(b, c) {
        lemma_bytes_less_trans(crate::strings::utf8_bytes(a), crate::strings::utf8_bytes(b), crate::strings::utf8_bytes(c));
    }
}

/// Names strictly ascend along the table (so no name occurs twice).
pub open spec fn ascending(s: NamedText) -> bool {
    forall|i: int, j: int| 0 <= i < j < s.len() ==> name_less(s[i].0, s[j].0)
}

/// The table with entry `e` stored in key order: it replaces the entry of the
/// same name, or goes before the first greater name.
pub open spec fn sorted_put(s: NamedText, e: (Seq<char>, Seq<char>)) -> NamedText
    decreases s.len(),
{
    if s.len() == 0 {
        seq![e]
    } else if s[0].0 == e.0 {
        seq![e] + s.drop_first()
    } else if name_less(e.0, s[0].0) {
        seq![e] + s
    } else {
        seq![s[0]] + sorted_put(s.drop_first(), e)
    }
}

/// The canonical form of a table: its entries stored one by one in key
/// order, a later entry under a name replacing an earlier one.
pub open spec fn canonical(ps: NamedText) -> NamedText
    decreases ps.len(),
{
    if ps.len() == 0 {
        Seq::empty()
    } else {
        sorted_put(canonical(ps.drop_last()), ps.last())
    }
}

/// The views of a table of strings.
pub open spec fn text_views(v: Seq<(String, String)>) -> NamedText {
    v.map_values(|p: (String, String)| (p.0@, p.1@))
}

proof fn lemma_put_at(s: NamedText, e: (Seq<char>, Seq<char>), p: int)
    requires
        ascending(s),
        0 <= p <= s.len(),
        forall|j: int| 0 <= j < p ==> name_less(#[trigger] s[j].0, e.0),
        p < s.len() ==> !name_less(s[p].0, e.0),
    ensures
        sorted_put(s, e) == if p < s.len() && s[p].0 == e.0 {
            s.subrange(0, p) + seq![e] + s.subrange(p + 1, s.len() as int)
        } else {
            s.subrange(0, p) + seq![e] + s.subrange(p, s.len() as int)
        },
    decreases p,
{
    if p == 0 {
        if s.len() > 0 && s[0].0 != e.0 {
            lemma_name_order(s[0].0, e.0, e.0);
        }
        assert(s.subrange(0, 0) + seq![e] + s.subrange(1, s.len() as int) =~= seq![e] + s.drop_first());
        assert(s.subrange(0, 0) + seq![e] + s.subrange(0, s.len() as int) =~= seq![e] + s);
    } else {
        lemma_name_order(s[0].0, e.0, e.0);
        let t = s.drop_first();
        assert forall|j: int| 0 <= j < p - 1 implies name_less(#[trigger] t[j].0, e.0) by {
            assert(t[j] == s[j + 1]);
        }
        lemma_put_at(t, e, p - 1);
        if p < s.len() && s[p].0 == e.0 {
            assert(s.subrange(0, p) + seq![e] + s.subrange(p + 1, s.len() as int)
                =~= seq![s[0]] + (t.subrange(0, p - 1) + seq![e] + t.subrange(p, t.len() as int)));
        } else {
            assert(s.subrange(0, p) + seq![e] + s.subrange(p, s.len() as int)
                =~= seq![s[0]] + (t.subrange(0, p - 1) + seq![e] + t.subrange(p - 1, t.len() as int)));
        }
    }
}

/// Stores `(k, x)` in a table kept in key order.
pub fn put_sorted(v: &mut Vec<(String, String)>, k: String, x: String)
    requires
        ascending(text_views(old(v)@)),
    ensures
        ascending(text_views(final(v)@)),
        text_views(final(v)@) == sorted_put(text_views(old(v)@), (k@, x@)),
{
    let ghost s = text_views(v@);
    let ghost e = (k@, x@);
    let mut p: usize = 0;
    while p < v.len() && less(v[p].0.as_str(), k.as_str())
        invariant
            p <= v@.len(),
            s == text_views(v@),
            e == (k@, x@),
            forall|j: int| 0 <= j < p ==> name_less(#[trigger] s[j].0, e.0),
        decreases v@.len() - p,
    {
        p = p + 1;
    }
    proof {
        lemma_put_at(s, e, p as int);
    }
    let same = p < v.len() && str_eq(v[p].0.as_str(), k.as_str());
    if same {
        v.set(p, (k, x));
        proof {
            assert(text_views(v@) =~= s.subrange(0, p as int) + seq![e] + s.subrange(p + 1, s.len() as int));
        }
    } else {
        v.insert(p, (k, x));
        proof {
            assert(text_views(v@) =~= s.subrange(0, p as int) + seq![e] + s.subrange(p as int, s.len() as int));
        }
    }
    proof {
        let r = text_views(v@);
        assert forall|i: int, j: int| 0 <= i < j < r.len() implies name_less(r[i].0, r[j].0) by {
            if p < s.len() && !same {
                lemma_name_order(s[p as int].0, e.0, e.0);
            }
            if i < p && j == p {
            } else if i == p && j > p {
                let jj = if same { j } else { j - 1 };
                if jj > p {
                    lemma_name_order(e.0, s[p as int].0, s[jj].0);
                }
            } else if i < p && j > p {
                let jj = if same { j } else { j - 1 };
                if same || jj >= p {
                    assert(name_less(s[i].0, s[jj].0));
                }
            }
        }
    }
}

/// The canonical form of a table of strings.
pub fn canonical_table(ps: &Vec<(String, String)>) -> (r: Vec<(String, String)>)
    ensures
        ascending(text_views(r@)),
        text_views(r@) == canonical(text_views(ps@)),
{
    let mut r: Vec<(String, String)> = Vec::new();
    let mut i: usize = 0;
    proof {
        assert(text_views(ps@).subrange(0, 0) =~= Seq::<(Seq<char>, Seq<char>)>::empty());
        assert(text_views(r@) =~= Seq::<(Seq<char>, Seq<char>)>::empty());
    }
    while i < ps.len()
        invariant
            i <= ps@.len(),
            ascending(text_views(r@)),
            text_views(r@) == canonical(text_views(ps@).subrange(0, i as int)),
        decreases ps@.len() - i,
    {
        proof {
            let pre = text_views(ps@).subrange(0, i + 1);
            assert(pre.drop_last() =~= text_views(ps@).subrange(0, i as int));
            assert(pre.last() == (ps@[i as int].0@, ps@[i as int].1@));
        }
        put_sorted(&mut r, ps[i].0.clone(), ps[i].1.clone());
        i = i + 1;
    }
    proof {
        assert(text_views(ps@).subrange(0, ps@.len() as int) =~= text_views(ps@));
    }
    r
}

} // verus!
