//! Checks of a scene's nodes: distinct identities, sane geometry, image
//! assets, and parent chains that end.
//!
//! Geometry is given by the bit patterns of IEEE-754 single-precision
//! values. On such a pattern `b`: the value is finite exactly when the
//! exponent bits are not all set, that is when `b < 0x7f80_0000` or
//! `0x8000_0000 <= b < 0xff80_0000`; it is below zero exactly when the sign
//! is set, it is not a zero and not a NaN, that is when
//! `0x8000_0000 < b <= 0xff80_0000`; and it lies in `0.0..=1.0` exactly when
//! `b <= 0x3f80_0000` (the non-negative values up to 1.0) or
//! `b == 0x8000_0000` (negative zero).
use crate::assoc::{assoc, contains_name, get_entry};
use crate::format::{diag_is, fails_with, Asset, AssetKind, Diagnostic, Node, MAX_NODES};
use crate::modules::lemma_room;
use crate::table::names_in;
use vstd::prelude::*;

verus! {

/// An entry of an asset table that scenes are checked against: it tells
/// the asset's kind.
pub trait MediaEntry {
    /// The kind of the asset.
    spec fn media_kind(&self) -> AssetKind;

    /// The kind of the asset.
    fn kind_now(&self) -> (k: AssetKind)
        ensures
            k == self.media_kind();
}

impl MediaEntry for Asset {
    open spec fn media_kind(&self) -> AssetKind {
        self.kind
    }

    fn kind_now(&self) -> (k: AssetKind) {
        self.kind
    }
}


/// The single-precision value with bit pattern `b` is finite.
pub open spec fn f32_finite(b: u32) -> bool {
    b < 0x7f80_0000u32 || (0x8000_0000u32 <= b && b < 0xff80_0000u32)
}

/// The single-precision value with bit pattern `b` is below zero.
pub open spec fn f32_negative(b: u32) -> bool {
    0x8000_0000u32 < b && b <= 0xff80_0000u32
}

/// The single-precision value with bit pattern `b` lies in `0.0..=1.0`.
pub open spec fn f32_unit(b: u32) -> bool {
    b <= 0x3f80_0000u32 || b == 0x8000_0000u32
}

/// The node's position, size, scale, opacity, color and clip are finite,
/// its size, scale and clip size are not below zero, and its opacity lies
/// in `0.0..=1.0`.
pub open spec fn node_visual_ok(n: Node) -> bool {
    &&& f32_finite(n.x_bits) && f32_finite(n.y_bits) && f32_finite(n.width_bits) && f32_finite(n.height_bits)
    &&& f32_finite(n.scale_bits) && f32_finite(n.opacity_bits)
    &&& f32_finite(n.color_bits[0]) && f32_finite(n.color_bits[1]) && f32_finite(n.color_bits[2]) && f32_finite(n.color_bits[3])
    &&& !f32_negative(n.width_bits) && !f32_negative(n.height_bits) && !f32_negative(n.scale_bits)
    &&& f32_unit(n.opacity_bits)
    &&& match n.clip_bits {
        Some(c) => f32_finite(c[0]) && f32_finite(c[1]) && f32_finite(c[2]) && f32_finite(c[3])
            && !f32_negative(c[2]) && !f32_negative(c[3]),
        None => true,
    }
}

/// The first node named `k`.
pub open spec fn find_node(nodes: Seq<Node>, k: Seq<char>) -> Option<Node>
    decreases nodes.len(),
{
    if nodes.len() == 0 {
        None
    } else if nodes[0].id@ == k {
        Some(nodes[0])
    } else {
        find_node(nodes.drop_first(), k)
    }
}

/// The parent of a node, as text.
pub open spec fn parent_of(n: Node) -> Option<Seq<char>> {
    match n.parent {
        Some(p) => Some(p@),
        None => None,
    }
}

/// Where the parent chain of node `origin` goes wrong, from the parent `cur`
/// on, having passed `seen`: a parent that is the node itself or was passed
/// already closes a cycle, and a parent that no node is named is missing.
/// Each step passes one more node; `fuel` bounds the steps.
pub open spec fn chain_error(nodes: Seq<Node>, origin: Seq<char>, cur: Option<Seq<char>>, seen: Seq<Seq<char>>, fuel: nat) -> Option<(Seq<char>, Seq<char>)>
    decreases fuel,
{
    match cur {
        None => None,
        Some(k) => if k == origin || seen.contains(k) {
            Some(("E_SCENE_CYCLE"@, k))
        } else {
            match find_node(nodes, k) {
                None => Some(("E_NODE"@, k)),
                Some(n) => if fuel == 0 { None } else { chain_error(nodes, origin, parent_of(n), seen.push(k), (fuel - 1) as nat) },
            }
        },
    }
}

/// The error of the parent chain of `n`.
pub open spec fn node_chain_error(nodes: Seq<Node>, n: Node) -> Option<(Seq<char>, Seq<char>)> {
    chain_error(nodes, n.id@, parent_of(n), Seq::empty(), nodes.len())
}

/// The error of node `i` on its own: a name used before, bad geometry, or an
/// asset that is not an image.
pub open spec fn node_error<T: MediaEntry>(nodes: Seq<Node>, i: int, assets: Seq<(String, T)>) -> Option<(Seq<char>, Seq<char>)> {
    let n = nodes[i];
    if exists|j: int| 0 <= j < i && (#[trigger] nodes[j]).id@ == n.id@ {
        Some(("E_DUPLICATE"@, n.id@))
    } else if !node_visual_ok(n) {
        Some(("E_VISUAL"@, n.id@))
    } else {
        match n.asset {
            Some(a) => match assoc(assets, a@) {
                Some(x) => if x.media_kind() == AssetKind::Image { None } else { Some(("E_ASSET_TYPE"@, a@)) },
                None => Some(("E_ASSET_TYPE"@, a@)),
            },
            None => None,
        }
    }
}

/// The first node error among the first `k` nodes.
pub open spec fn first_node_error<T: MediaEntry>(nodes: Seq<Node>, k: int, assets: Seq<(String, T)>) -> Option<(Seq<char>, Seq<char>)>
    decreases k,
{
    if k <= 0 {
        None
    } else {
        match first_node_error(nodes, k - 1, assets) {
            Some(e) => Some(e),
            None => node_error(nodes, k - 1, assets),
        }
    }
}

/// The first parent chain error among the first `k` nodes.
pub open spec fn first_chain_error(nodes: Seq<Node>, k: int) -> Option<(Seq<char>, Seq<char>)>
    decreases k,
{
    if k <= 0 {
        None
    } else {
        match first_chain_error(nodes, k - 1) {
            Some(e) => Some(e),
            None => node_chain_error(nodes, nodes[k - 1]),
        }
    }
}

/// The error of scene `id`: too many nodes; else the first node error;
/// else the first parent chain error.
pub open spec fn scene_error<T: MediaEntry>(nodes: Seq<Node>, assets: Seq<(String, T)>) -> Option<(Seq<char>, Seq<char>)> {
    if nodes.len() > MAX_NODES {
        Some(("E_LIMIT"@, "too many nodes"@))
    } else {
        match first_node_error(nodes, nodes.len() as int, assets) {
            Some(e) => Some(e),
            None => first_chain_error(nodes, nodes.len() as int),
        }
    }
}

pub(crate) fn finite(b: u32) -> (r: bool)
    ensures
        r == f32_finite(b),
{
    b < 0x7f80_0000u32 || (0x8000_0000u32 <= b && b < 0xff80_0000u32)
}

fn negative(b: u32) -> (r: bool)
    ensures
        r == f32_negative(b),
{
    0x8000_0000u32 < b && b <= 0xff80_0000u32
}

pub(crate) fn visual_ok(n: &Node) -> (r: bool)
    ensures
        r == node_visual_ok(*n),
{
    let base = finite(n.x_bits) && finite(n.y_bits) && finite(n.width_bits) && finite(n.height_bits)
        && finite(n.scale_bits) && finite(n.opacity_bits)
        && finite(n.color_bits[0]) && finite(n.color_bits[1]) && finite(n.color_bits[2]) && finite(n.color_bits[3])
        && !negative(n.width_bits) && !negative(n.height_bits) && !negative(n.scale_bits)
        && (n.opacity_bits <= 0x3f80_0000u32 || n.opacity_bits == 0x8000_0000u32);
    let clip = match &n.clip_bits {
        Some(c) => finite(c[0]) && finite(c[1]) && finite(c[2]) && finite(c[3]) && !negative(c[2]) && !negative(c[3]),
        None => true,
    };
    base && clip
}

proof fn lemma_find_first(nodes: Seq<Node>, k: Seq<char>, i: int)
    requires
        0 <= i < nodes.len(),
        nodes[i].id@ == k,
        forall|j: int| 0 <= j < i ==> (#[trigger] nodes[j]).id@ != k,
    ensures
        find_node(nodes, k) == Some(nodes[i]),
    decreases i,
{
    if i > 0 {
        lemma_find_first(nodes.drop_first(), k, i - 1);
    }
}

proof fn lemma_find_absent(nodes: Seq<Node>, k: Seq<char>)
    requires
        forall|j: int| 0 <= j < nodes.len() ==> (#[trigger] nodes[j]).id@ != k,
    ensures
        find_node(nodes, k) is None,
    decreases nodes.len(),
{
    if nodes.len() > 0 {
        assert(nodes[0].id@ != k);
        lemma_find_absent(nodes.drop_first(), k);
    }
}

fn find(nodes: &Vec<Node>, k: &str) -> (r: Option<usize>)
    ensures
        match r {
            Some(i) => i < nodes@.len() && nodes@[i as int].id@ == k@ && find_node(nodes@, k@) == Some(nodes@[i as int]),
            None => find_node(nodes@, k@) is None,
        },
{
    let mut i: usize = 0;
    while i < nodes.len()
        invariant
            i <= nodes@.len(),
            forall|j: int| 0 <= j < i ==> (#[trigger] nodes@[j]).id@ != k@,
        decreases nodes@.len() - i,
    {
        if crate::strings::str_eq(nodes[i].id.as_str(), k) {
            proof {
                lemma_find_first(nodes@, k@, i as int);
            }
            return Some(i);
        }
        i = i + 1;
    }
    proof {
        lemma_find_absent(nodes@, k@);
    }
    None
}

/// The node names, as text.
pub open spec fn node_ids(nodes: Seq<Node>) -> Seq<Seq<char>> {
    nodes.map_values(|n: Node| n.id@)
}

/// Follows the parent chain of node `i`.
pub(crate) fn check_chain(nodes: &Vec<Node>, i: usize, at: &str) -> (r: Result<(), Diagnostic>)
    requires
        i < nodes@.len(),
        node_ids(nodes@).no_duplicates(),
    ensures
        match node_chain_error(nodes@, nodes@[i as int]) {
            Some(e) => fails_with(r, e.0, at@, e.1),
            None => r is Ok,
        },
{
    let origin = &nodes[i].id;
    let ghost n = nodes@.len();
    let ghost pool = node_ids(nodes@);
    let mut seen: Vec<String> = Vec::new();
    let mut parent: Option<&String> = nodes[i].parent.as_ref();
    proof {
        assert(pool[i as int] == origin@);
        assert(seen@.map_values(|s: String| s@).push(origin@) =~= seq![origin@]);
        assert(seen@.map_values(|s: String| s@) =~= Seq::<Seq<char>>::empty());
        assert((match parent { Some(p) => Some(p@), None => None }) == parent_of(nodes@[i as int]));
    }
    loop
        invariant
            i < nodes@.len(),
            n == nodes@.len(),
            pool == node_ids(nodes@),
            pool.no_duplicates(),
            origin@ == nodes@[i as int].id@,
            seen@.map_values(|s: String| s@).push(origin@).no_duplicates(),
            forall|j: int| 0 <= j < seen@.len() ==> pool.contains(#[trigger] seen@[j]@),
            seen@.len() < n,
            node_chain_error(nodes@, nodes@[i as int]) == chain_error(nodes@, origin@,
                match parent { Some(p) => Some(p@), None => None }, seen@.map_values(|s: String| s@), (n - seen@.len()) as nat),
        decreases n - seen@.len(),
    {
        let k = match parent {
            Some(k) => k,
            None => {
                return Ok(());
            },
        };
        let ghost sv = seen@.map_values(|s: String| s@);
        if crate::strings::str_eq(k.as_str(), origin.as_str()) || contains_name(&seen, k.as_str()) {
            proof {
                if names_in(seen@).contains(k@) {
                    let j = choose|j: int| 0 <= j < seen@.len() && (#[trigger] seen@[j])@ == k@;
                    assert(sv[j] == k@);
                }
            }
            return Err(Diagnostic::new("E_SCENE_CYCLE", at, k.as_str()));
        }
        proof {
            assert(!sv.contains(k@)) by {
                if sv.contains(k@) {
                    let j = choose|j: int| 0 <= j < sv.len() && sv[j] == k@;
                    assert(seen@[j]@ == k@);
                    assert(names_in(seen@).contains(k@));
                }
            }
        }
        let next = match find(nodes, k.as_str()) {
            Some(j) => j,
            None => {
                return Err(Diagnostic::new("E_NODE", at, k.as_str()));
            },
        };
        proof {
            assert(pool[next as int] == k@);
            assert(!sv.push(origin@).contains(k@)) by {
                if sv.push(origin@).contains(k@) {
                    let j = choose|j: int| 0 <= j < sv.push(origin@).len() && sv.push(origin@)[j] == k@;
                    if j < sv.len() {
                        assert(sv[j] == k@);
                    }
                }
            }
            assert forall|j: int| 0 <= j < sv.push(origin@).len() implies pool.contains(#[trigger] sv.push(origin@)[j]) by {
                if j < sv.len() {
                    assert(pool.contains(seen@[j]@));
                } else {
                    assert(pool[i as int] == origin@);
                }
            }
            lemma_room(sv.push(origin@), k@, pool);
        }
        let ghost before = seen@;
        seen.push(k.clone());
        proof {
            assert(seen@.map_values(|s: String| s@) =~= sv.push(k@));
            assert(sv.push(k@).push(origin@).no_duplicates()) by {
                let w = sv.push(k@).push(origin@);
                assert forall|a: int, b: int| 0 <= a < w.len() && 0 <= b < w.len() && a != b implies w[a] != w[b] by {
                    let u = sv.push(origin@);
                    if a < sv.len() && b < sv.len() {
                        assert(w[a] == u[a] && w[b] == u[b]);
                    } else if a == sv.len() && b < sv.len() {
                        assert(w[b] == sv[b]);
                        assert(sv.contains(w[b]));
                    } else if b == sv.len() && a < sv.len() {
                        assert(w[a] == sv[a]);
                        assert(sv.contains(w[a]));
                    } else if a == sv.len() + 1 && b < sv.len() {
                        assert(w[a] == u[sv.len() as int] && w[b] == u[b]);
                    } else if b == sv.len() + 1 && a < sv.len() {
                        assert(w[b] == u[sv.len() as int] && w[a] == u[a]);
                    }
                }
            }
            assert forall|j: int| 0 <= j < seen@.len() implies pool.contains(#[trigger] seen@[j]@) by {
                if j < before.len() {
                    assert(seen@[j] == before[j]);
                }
            }
        }
        parent = nodes[next].parent.as_ref();
    }
}

/// Checks the nodes of scene `id`: at most `MAX_NODES`; each named once,
/// with finite geometry, a non-negative size and scale, an opacity in
/// `0.0..=1.0`, a sane clip and, if it shows an asset, an image; and every
/// parent chain ends without a cycle at a node without a parent. The first
/// failing check, in that order, is the error.
pub fn validate_scene_nodes<T: MediaEntry>(nodes: &Vec<Node>, id: &str, assets: &Vec<(String, T)>) -> (r: Result<(), Diagnostic>)
    ensures
        match scene_error(nodes@, assets@) {
            Some(e) => fails_with(r, e.0, id@, e.1),
            None => r is Ok,
        },
{
    if nodes.len() > MAX_NODES {
        return Err(Diagnostic::new("E_LIMIT", id, "too many nodes"));
    }
    let mut ids: Vec<String> = Vec::new();
    let mut i: usize = 0;
    while i < nodes.len()
        invariant
            i <= nodes@.len(),
            nodes@.len() <= MAX_NODES,
            ids@.len() == i,
            forall|j: int| 0 <= j < i ==> (#[trigger] ids@[j])@ == nodes@[j].id@,
            first_node_error(nodes@, i as int, assets@) is None,
        decreases nodes@.len() - i,
    {
        let n = &nodes[i];
        proof {
            assert(nodes@[i as int] == *n);
        }
        if contains_name(&ids, n.id.as_str()) {
            proof {
                let j = choose|j: int| 0 <= j < ids@.len() && (#[trigger] ids@[j])@ == n.id@;
                assert(nodes@[j].id@ == n.id@);
                assert(node_error(nodes@, i as int, assets@) == Some(("E_DUPLICATE"@, n.id@)));
                lemma_first_node_error_stays(nodes@, assets@, i as int + 1, nodes@.len() as int);
            }
            return Err(Diagnostic::new("E_DUPLICATE", id, n.id.as_str()));
        }
        proof {
            assert forall|j: int| 0 <= j < i implies (#[trigger] nodes@[j]).id@ != n.id@ by {
                assert(ids@[j]@ == nodes@[j].id@);
                if nodes@[j].id@ == n.id@ {
                    assert(names_in(ids@).contains(n.id@));
                }
            }
        }
        if !visual_ok(n) {
            proof {
                lemma_first_node_error_stays(nodes@, assets@, i as int + 1, nodes@.len() as int);
            }
            return Err(Diagnostic::new("E_VISUAL", id, n.id.as_str()));
        }
        match &n.asset {
            Some(a) => {
                let image = match get_entry(assets, a.as_str()) {
                    Some(x) => match x.kind_now() {
                        AssetKind::Image => true,
                        _ => false,
                    },
                    None => false,
                };
                if !image {
                    proof {
                        lemma_first_node_error_stays(nodes@, assets@, i as int + 1, nodes@.len() as int);
                    }
                    return Err(Diagnostic::new("E_ASSET_TYPE", id, a.as_str()));
                }
            },
            None => {},
        }
        ids.push(n.id.clone());
        i = i + 1;
    }
    proof {
        assert forall|a: int, b: int| 0 <= a < node_ids(nodes@).len() && 0 <= b < node_ids(nodes@).len() && a != b
            implies node_ids(nodes@)[a] != node_ids(nodes@)[b] by {
            if a < b {
                lemma_no_earlier_duplicate(nodes@, assets@, b, a);
            } else {
                lemma_no_earlier_duplicate(nodes@, assets@, a, b);
            }
        }
    }
    let mut k: usize = 0;
    while k < nodes.len()
        invariant
            k <= nodes@.len(),
            nodes@.len() <= MAX_NODES,
            first_node_error(nodes@, nodes@.len() as int, assets@) is None,
            node_ids(nodes@).no_duplicates(),
            first_chain_error(nodes@, k as int) is None,
        decreases nodes@.len() - k,
    {
        match check_chain(nodes, k, id) {
            Ok(()) => {},
            Err(e) => {
                proof {
                    lemma_first_chain_error_stays(nodes@, k as int + 1, nodes@.len() as int);
                }
                return Err(e);
            },
        }
        k = k + 1;
    }
    Ok(())
}

proof fn lemma_first_node_error_stays<T: MediaEntry>(nodes: Seq<Node>, assets: Seq<(String, T)>, k: int, m: int)
    requires
        0 <= k <= m,
        first_node_error(nodes, k, assets) is Some,
    ensures
        first_node_error(nodes, m, assets) == first_node_error(nodes, k, assets),
    decreases m - k,
{
    if k < m {
        lemma_first_node_error_stays(nodes, assets, k, m - 1);
    }
}

proof fn lemma_first_chain_error_stays(nodes: Seq<Node>, k: int, m: int)
    requires
        0 <= k <= m,
        first_chain_error(nodes, k) is Some,
    ensures
        first_chain_error(nodes, m) == first_chain_error(nodes, k),
    decreases m - k,
{
    if k < m {
        lemma_first_chain_error_stays(nodes, k, m - 1);
    }
}

proof fn lemma_no_earlier_duplicate<T: MediaEntry>(nodes: Seq<Node>, assets: Seq<(String, T)>, b: int, a: int)
    requires
        0 <= a < b < nodes.len(),
        first_node_error(nodes, nodes.len() as int, assets) is None,
    ensures
        nodes[a].id@ != nodes[b].id@,
{
    lemma_prefix_clean(nodes, assets, b + 1, nodes.len() as int);
    assert(node_error(nodes, b, assets) is None);
}

proof fn lemma_prefix_clean<T: MediaEntry>(nodes: Seq<Node>, assets: Seq<(String, T)>, k: int, m: int)
    requires
        0 <= k <= m,
        first_node_error(nodes, m, assets) is None,
    ensures
        first_node_error(nodes, k, assets) is None,
    decreases m - k,
{
    if k < m {
        lemma_prefix_clean(nodes, assets, k, m - 1);
    }
}


/// `w` is an ancestor line: each name in it is a node whose parent is the
/// next name, the last is a node without a parent, and no name repeats.
pub open spec fn ancestor_line(nodes: Seq<Node>, w: Seq<Seq<char>>) -> bool {
    &&& w.len() >= 1
    &&& w.no_duplicates()
    &&& forall|j: int| 0 <= j < w.len() - 1 ==> find_node(nodes, #[trigger] w[j]) is Some
        && parent_of(find_node(nodes, w[j]).unwrap()) == Some(w[j + 1])
    &&& find_node(nodes, w.last()) is Some
    &&& parent_of(find_node(nodes, w.last()).unwrap()) is None
}

proof fn lemma_find_in_ids(nodes: Seq<Node>, k: Seq<char>)
    requires
        find_node(nodes, k) is Some,
    ensures
        node_ids(nodes).contains(k),
        find_node(nodes, k).unwrap().id@ == k,
    decreases nodes.len(),
{
    if nodes[0].id@ == k {
        assert(node_ids(nodes)[0] == k);
    } else {
        lemma_find_in_ids(nodes.drop_first(), k);
        let j = choose|j: int| 0 <= j < node_ids(nodes.drop_first()).len() && node_ids(nodes.drop_first())[j] == k;
        assert(node_ids(nodes)[j + 1] == k);
    }
}

proof fn lemma_chain_line(nodes: Seq<Node>, origin: Seq<char>, cur: Seq<char>, seen: Seq<Seq<char>>, fuel: nat) -> (w: Seq<Seq<char>>)
    requires
        chain_error(nodes, origin, Some(cur), seen, fuel) is None,
        seen.push(origin).no_duplicates(),
        forall|j: int| 0 <= j < seen.push(origin).len() ==> node_ids(nodes).contains(#[trigger] seen.push(origin)[j]),
        fuel + seen.len() == nodes.len(),
    ensures
        w.len() >= 1,
        w[0] == cur,
        (seen.push(origin) + w).no_duplicates(),
        forall|j: int| 0 <= j < w.len() - 1 ==> find_node(nodes, #[trigger] w[j]) is Some
            && parent_of(find_node(nodes, w[j]).unwrap()) == Some(w[j + 1]),
        find_node(nodes, w.last()) is Some,
        parent_of(find_node(nodes, w.last()).unwrap()) is None,
    decreases fuel,
{
    let s = seen.push(origin);
    assert(cur != origin && !seen.contains(cur));
    let n = find_node(nodes, cur).unwrap();
    lemma_find_in_ids(nodes, cur);
    assert(!s.contains(cur)) by {
        if s.contains(cur) {
            let j = choose|j: int| 0 <= j < s.len() && s[j] == cur;
            if j < seen.len() {
                assert(seen[j] == cur);
            }
        }
    }
    lemma_room(s, cur, node_ids(nodes));
    assert(fuel > 0);
    let s2 = s.push(cur);
    match parent_of(n) {
        None => {
            let w = seq![cur];
            assert(s + w =~= s2);
            assert(s2.no_duplicates()) by {
                assert forall|a: int, b: int| 0 <= a < s2.len() && 0 <= b < s2.len() && a != b implies s2[a] != s2[b] by {
                    if a < s.len() && b < s.len() {
                        assert(s2[a] == s[a] && s2[b] == s[b]);
                    } else if a < s.len() {
                        assert(s2[a] == s[a]);
                        assert(s.contains(s2[a]));
                    } else {
                        assert(s2[b] == s[b]);
                        assert(s.contains(s2[b]));
                    }
                }
            }
            w
        },
        Some(p) => {
            let seen2 = seen.push(cur);
            assert(seen2.push(origin).no_duplicates()) by {
                let u = seen2.push(origin);
                assert forall|a: int, b: int| 0 <= a < u.len() && 0 <= b < u.len() && a != b implies u[a] != u[b] by {
                    if a < seen.len() && b < seen.len() {
                        assert(u[a] == s[a] && u[b] == s[b]);
                    } else if a == seen.len() && b < seen.len() {
                        assert(u[b] == seen[b]);
                        assert(seen.contains(u[b]));
                    } else if b == seen.len() && a < seen.len() {
                        assert(u[a] == seen[a]);
                        assert(seen.contains(u[a]));
                    } else if a == seen.len() + 1 && b < seen.len() {
                        assert(u[a] == s[seen.len() as int] && u[b] == s[b]);
                    } else if b == seen.len() + 1 && a < seen.len() {
                        assert(u[b] == s[seen.len() as int] && u[a] == s[a]);
                    }
                }
            }
            assert forall|j: int| 0 <= j < seen2.push(origin).len() implies node_ids(nodes).contains(#[trigger] seen2.push(origin)[j]) by {
                if j < seen.len() {
                    assert(seen2.push(origin)[j] == s[j]);
                } else if j == seen.len() {
                } else {
                    assert(seen2.push(origin)[j] == s[seen.len() as int]);
                }
            }
            let rest = lemma_chain_line(nodes, origin, p, seen2, (fuel - 1) as nat);
            let w = seq![cur] + rest;
            assert((s + w).no_duplicates()) by {
                let big = seen2.push(origin) + rest;
                let sw = s + w;
                assert forall|a: int, b: int| 0 <= a < sw.len() && 0 <= b < sw.len() && a != b implies sw[a] != sw[b] by {
                    let m = |x: int| if x < seen.len() { x } else if x == seen.len() { (seen.len() + 1) as int } else if x == seen.len() + 1 { seen.len() as int } else { x };
                    assert(sw[a] == big[m(a)]);
                    assert(sw[b] == big[m(b)]);
                }
            }
            assert forall|j: int| 0 <= j < w.len() - 1 implies find_node(nodes, #[trigger] w[j]) is Some
                && parent_of(find_node(nodes, w[j]).unwrap()) == Some(w[j + 1]) by {
                if j > 0 {
                    assert(w[j] == rest[j - 1]);
                    assert(w[j + 1] == rest[j]);
                } else {
                    assert(w[1] == rest[0]);
                }
            }
            assert(w.last() == rest.last());
            w
        },
    }
}

/// A scene that passes `validate_scene_nodes` has no parent cycles: the
/// ancestor line of every node ends at a node without a parent.
pub proof fn valid_scene_lines_end<T: MediaEntry>(nodes: Seq<Node>, assets: Seq<(String, T)>, i: int)
    requires
        scene_error(nodes, assets) is None,
        0 <= i < nodes.len(),
    ensures
        exists|w: Seq<Seq<char>>| #[trigger] ancestor_line(nodes, w) && w[0] == nodes[i].id@,
{
    let origin = nodes[i].id@;
    assert forall|a: int, b: int| 0 <= a < node_ids(nodes).len() && 0 <= b < node_ids(nodes).len() && a != b
        implies node_ids(nodes)[a] != node_ids(nodes)[b] by {
        if a < b {
            lemma_no_earlier_duplicate(nodes, assets, b, a);
        } else {
            lemma_no_earlier_duplicate(nodes, assets, a, b);
        }
    }
    assert forall|j: int| 0 <= j < i implies (#[trigger] nodes[j]).id@ != origin by {
        assert(node_ids(nodes)[j] != node_ids(nodes)[i]);
    }
    lemma_find_first(nodes, origin, i);
    lemma_chain_prefix_clean(nodes, i + 1, nodes.len() as int);
    assert(node_chain_error(nodes, nodes[i]) is None);
    match parent_of(nodes[i]) {
        None => {
            let w = seq![origin];
            assert(ancestor_line(nodes, w));
        },
        Some(p) => {
            let empty = Seq::<Seq<char>>::empty();
            assert(empty.push(origin) =~= seq![origin]);
            assert(node_ids(nodes)[i] == origin);
            let rest = lemma_chain_line(nodes, origin, p, empty, nodes.len());
            let w = seq![origin] + rest;
            assert(w =~= empty.push(origin) + rest);
            assert forall|j: int| 0 <= j < w.len() - 1 implies find_node(nodes, #[trigger] w[j]) is Some
                && parent_of(find_node(nodes, w[j]).unwrap()) == Some(w[j + 1]) by {
                if j > 0 {
                    assert(w[j] == rest[j - 1]);
                    assert(w[j + 1] == rest[j]);
                } else {
                    assert(w[1] == rest[0]);
                }
            }
            assert(w.last() == rest.last());
            assert(ancestor_line(nodes, w));
        },
    }
}

proof fn lemma_chain_prefix_clean(nodes: Seq<Node>, k: int, m: int)
    requires
        0 <= k <= m,
        m <= nodes.len(),
        first_chain_error(nodes, m) is None,
    ensures
        first_chain_error(nodes, k) is None,
    decreases m - k,
{
    if k < m {
        lemma_chain_prefix_clean(nodes, k, m - 1);
    }
}

} // verus!
