//! The executable index of a program: one resumable address per operation
//! and per block terminator, the map from address keys back to positions,
//! the semantic cost of each address, and the assets each cue activates.
use crate::assoc::{add_name, assoc, assoc_keys, get_entry, position_of, put_entry, same_names};
use crate::format::{address_key, Address, Asset, AssetKind, Block, Cue, Diagnostic, Effect, Function, Node, diag_is};
use crate::strings::owned;
use crate::table::names_in;
use vstd::prelude::*;

verus! {

/// The format version of executables.
pub const FORMAT_VERSION: u32 = 1;

/// The parts of a program that its executable index is built from.
#[derive(Debug, Clone)]
pub struct ProgramTables {
    pub functions: Vec<(String, Function)>,
    pub scenes: Vec<(String, Vec<Node>)>,
    pub cues: Vec<(String, Cue)>,
    pub assets: Vec<(String, Asset)>,
}

/// A compiled program: its tables and its index.
#[derive(Debug, Clone)]
pub struct Executable {
    pub format: u32,
    pub program: ProgramTables,
    pub addresses: Vec<Address>,
    pub resume_map: Vec<(String, u32)>,
    pub semantic_cost_map: Vec<u32>,
    pub activation_recipes: Vec<(String, Vec<String>)>,
}

/// An address as (function, block, position, stable identity).
pub type AddressView = (Seq<char>, Seq<char>, int, Seq<char>);

/// The view of an address.
pub open spec fn address_view(a: Address) -> AddressView {
    (a.function@, a.block@, a.op as int, a.stable_id@)
}

/// The views of a list of addresses.
pub open spec fn address_views(v: Seq<Address>) -> Seq<AddressView> {
    v.map_values(|a: Address| address_view(a))
}

/// The stable identity of position `op` of a block: the operation's own
/// identity, or `@terminator` for the position after the last operation.
pub open spec fn stable_id(b: Block, op: int) -> Seq<char> {
    if 0 <= op < b.ops@.len() {
        b.ops@[op].id@
    } else {
        "@terminator"@
    }
}

/// The addresses of one block, in position order.
pub open spec fn block_addresses(fid: Seq<char>, bid: Seq<char>, b: Block) -> Seq<AddressView> {
    Seq::new((b.ops@.len() + 1) as nat, |op: int| (fid, bid, op, stable_id(b, op)))
}

/// The addresses of the blocks of a function, in table order.
pub open spec fn blocks_addresses(fid: Seq<char>, blocks: Seq<(String, Block)>) -> Seq<AddressView>
    decreases blocks.len(),
{
    if blocks.len() == 0 {
        Seq::empty()
    } else {
        blocks_addresses(fid, blocks.drop_last()) + block_addresses(fid, blocks.last().0@, blocks.last().1)
    }
}

/// The addresses of a program, function by function in table order.
pub open spec fn program_addresses(functions: Seq<(String, Function)>) -> Seq<AddressView>
    decreases functions.len(),
{
    if functions.len() == 0 {
        Seq::empty()
    } else {
        program_addresses(functions.drop_last()) + blocks_addresses(functions.last().0@, functions.last().1.blocks@)
    }
}

/// The resume key of an address view: `function/block/stable identity`.
pub open spec fn view_key(a: AddressView) -> Seq<char> {
    a.0 + seq!['/'] + a.1 + seq!['/'] + a.3
}

/// The assets named by the nodes of a scene.
pub open spec fn node_assets(nodes: Seq<Node>) -> Set<Seq<char>> {
    Set::new(|a: Seq<char>| exists|i: int| 0 <= i < nodes.len() && (#[trigger] nodes[i]).asset is Some && nodes[i].asset.unwrap()@ == a)
}

/// The assets an effect activates: a presented scene's node assets, or the
/// played audio.
pub open spec fn effect_assets(e: Effect, scenes: Seq<(String, Vec<Node>)>) -> Set<Seq<char>> {
    match e {
        Effect::StagePresent { scene, .. } => match assoc(scenes, scene@) {
            Some(nodes) => node_assets(nodes@),
            None => Set::empty(),
        },
        Effect::Audio { asset, .. } => set![asset@],
        _ => Set::empty(),
    }
}

/// The assets the effects `effs` activate.
pub open spec fn effects_assets(effs: Seq<crate::format::EffectDef>, scenes: Seq<(String, Vec<Node>)>) -> Set<Seq<char>>
    decreases effs.len(),
{
    if effs.len() == 0 {
        Set::empty()
    } else {
        effects_assets(effs.drop_last(), scenes).union(effect_assets(effs.last().effect, scenes))
    }
}

/// The font assets of a catalog.
pub open spec fn font_assets(assets: Seq<(String, Asset)>) -> Set<Seq<char>> {
    Set::new(|a: Seq<char>| exists|i: int| 0 <= i < assets.len() && (#[trigger] assets[i]).0@ == a && assets[i].1.kind == AssetKind::Font)
}

/// The assets a cue needs resident before it runs: those of its effects,
/// and every font.
pub open spec fn cue_asset_set(p: ProgramTables, cue: Seq<char>) -> Set<Seq<char>> {
    let from_cue = match assoc(p.cues@, cue) {
        Some(c) => effects_assets(c.effects@, p.scenes@),
        None => Set::empty(),
    };
    from_cue.union(font_assets(p.assets@))
}

/// The index of `e` is the one its program determines.
pub open spec fn index_valid(e: Executable) -> bool {
    let expected = program_addresses(e.program.functions@);
    &&& e.format == FORMAT_VERSION
    &&& e.addresses@.len() == expected.len()
    &&& e.resume_map@.len() == expected.len()
    &&& e.semantic_cost_map@.len() == expected.len()
    &&& e.activation_recipes@.len() == e.program.cues@.len()
    &&& forall|i: int| 0 <= i < expected.len() ==> {
        &&& address_view(#[trigger] e.addresses@[i]) == expected[i]
        &&& assoc(e.resume_map@, address_key(e.addresses@[i])) == Some(i as u32)
        &&& e.semantic_cost_map@[i] == 1
    }
    &&& forall|j: int| 0 <= j < e.program.cues@.len() ==> {
        let r = assoc(e.activation_recipes@, (#[trigger] e.program.cues@[j]).0@);
        r is Some && names_in(r.unwrap()@) == cue_asset_set(e.program, e.program.cues@[j].0@)
    }
}

proof fn lemma_views_push(v: Seq<Address>, a: Address)
    ensures
        address_views(v.push(a)) == address_views(v).push(address_view(a)),
{
    assert(address_views(v.push(a)) =~= address_views(v).push(address_view(a)));
}

/// The addresses of a program, in index order.
pub fn program_address_list(functions: &Vec<(String, Function)>) -> (r: Vec<Address>)
    ensures
        address_views(r@) == program_addresses(functions@),
{
    let mut r: Vec<Address> = Vec::new();
    let mut fi: usize = 0;
    while fi < functions.len()
        invariant
            fi <= functions@.len(),
            address_views(r@) == program_addresses(functions@.subrange(0, fi as int)),
        decreases functions@.len() - fi,
    {
        let fid = &functions[fi].0;
        let blocks = &functions[fi].1.blocks;
        let ghost before_f = address_views(r@);
        let mut bi: usize = 0;
        while bi < blocks.len()
            invariant
                fi < functions@.len(),
                fid == &functions@[fi as int].0,
                blocks == &functions@[fi as int].1.blocks,
                bi <= blocks@.len(),
                before_f == program_addresses(functions@.subrange(0, fi as int)),
                address_views(r@) == before_f + blocks_addresses(fid@, blocks@.subrange(0, bi as int)),
            decreases blocks@.len() - bi,
        {
            let bid = &blocks[bi].0;
            let b = &blocks[bi].1;
            let ghost before_b = address_views(r@);
            let mut op: usize = 0;
            let n = b.ops.len();
            while op < n
                invariant
                    n == b.ops@.len(),
                    op <= n,
                    address_views(r@) == before_b + block_addresses(fid@, bid@, *b).subrange(0, op as int),
                decreases n - op,
            {
                let a = Address { function: fid.clone(), block: bid.clone(), op, stable_id: b.ops[op].id.clone() };
                let ghost prev = r@;
                r.push(a);
                proof {
                    lemma_views_push(prev, a);
                    assert(block_addresses(fid@, bid@, *b).subrange(0, op + 1) =~= block_addresses(fid@, bid@, *b).subrange(0, op as int).push(address_view(a)));
                }
                op = op + 1;
            }
            let a = Address { function: fid.clone(), block: bid.clone(), op: n, stable_id: owned("@terminator") };
            let ghost prev = r@;
            r.push(a);
            proof {
                lemma_views_push(prev, a);
                assert(block_addresses(fid@, bid@, *b).subrange(0, n + 1) =~= block_addresses(fid@, bid@, *b).subrange(0, n as int).push(address_view(a)));
            }
            proof {
                assert(block_addresses(fid@, bid@, *b).subrange(0, n + 1) =~= block_addresses(fid@, bid@, *b));
                assert(blocks@.subrange(0, bi + 1).drop_last() =~= blocks@.subrange(0, bi as int));
            }
            bi = bi + 1;
        }
        proof {
            assert(blocks@.subrange(0, blocks@.len() as int) =~= blocks@);
            assert(functions@.subrange(0, fi + 1).drop_last() =~= functions@.subrange(0, fi as int));
        }
        fi = fi + 1;
    }
    proof {
        assert(functions@.subrange(0, functions@.len() as int) =~= functions@);
    }
    r
}

/// The assets cue `cue` activates, each once.
pub fn cue_assets(p: &ProgramTables, cue: &str) -> (r: Vec<String>)
    ensures
        names_in(r@) == cue_asset_set(*p, cue@),
{
    let mut r: Vec<String> = Vec::new();
    proof {
        assert(names_in(r@) =~= Set::<Seq<char>>::empty());
    }
    if let Some(c) = get_entry(&p.cues, cue) {
        let effs = &c.effects;
        let mut k: usize = 0;
        while k < effs.len()
            invariant
                k <= effs@.len(),
                names_in(r@) == effects_assets(effs@.subrange(0, k as int), p.scenes@),
            decreases effs@.len() - k,
        {
            let ghost before = names_in(r@);
            match &effs[k].effect {
                Effect::StagePresent { scene, .. } => {
                    if let Some(nodes) = get_entry(&p.scenes, scene.as_str()) {
                        let mut i: usize = 0;
                        while i < nodes.len()
                            invariant
                                i <= nodes@.len(),
                                names_in(r@) == before.union(node_assets(nodes@.subrange(0, i as int))),
                            decreases nodes@.len() - i,
                        {
                            let ghost at = names_in(r@);
                            if let Some(a) = &nodes[i].asset {
                                add_name(&mut r, a.clone());
                            }
                            proof {
                                let pre = nodes@.subrange(0, i as int);
                                let next = nodes@.subrange(0, i + 1);
                                assert forall|q: Seq<char>| node_assets(next).contains(q) <==> (node_assets(pre).contains(q)
                                    || (nodes@[i as int].asset is Some && nodes@[i as int].asset.unwrap()@ == q)) by {
                                    if node_assets(next).contains(q) {
                                        let t = choose|t: int| 0 <= t < next.len() && (#[trigger] next[t]).asset is Some && next[t].asset.unwrap()@ == q;
                                        if t < i {
                                            assert(pre[t] == next[t]);
                                        }
                                    }
                                    if node_assets(pre).contains(q) {
                                        let t = choose|t: int| 0 <= t < pre.len() && (#[trigger] pre[t]).asset is Some && pre[t].asset.unwrap()@ == q;
                                        assert(next[t] == pre[t]);
                                    }
                                    if nodes@[i as int].asset is Some && nodes@[i as int].asset.unwrap()@ == q {
                                        assert(next[i as int] == nodes@[i as int]);
                                    }
                                }
                                assert(names_in(r@) =~= before.union(node_assets(next)));
                            }
                            i = i + 1;
                        }
                        proof {
                            assert(nodes@.subrange(0, nodes@.len() as int) =~= nodes@);
                        }
                    }
                },
                Effect::Audio { asset, .. } => {
                    add_name(&mut r, asset.clone());
                    proof {
                        assert(names_in(r@) =~= before.union(set![asset@]));
                    }
                },
                _ => {
                    proof {
                        assert(names_in(r@) =~= before.union(Set::empty()));
                    }
                },
            }
            proof {
                assert(effs@.subrange(0, k + 1).drop_last() =~= effs@.subrange(0, k as int));
            }
            k = k + 1;
        }
        proof {
            assert(effs@.subrange(0, effs@.len() as int) =~= effs@);
        }
    }
    let ghost from_cue = names_in(r@);
    let mut i: usize = 0;
    while i < p.assets.len()
        invariant
            i <= p.assets@.len(),
            names_in(r@) == from_cue.union(font_assets(p.assets@.subrange(0, i as int))),
        decreases p.assets@.len() - i,
    {
        let is_font = match p.assets[i].1.kind {
            AssetKind::Font => true,
            _ => false,
        };
        if is_font {
            add_name(&mut r, p.assets[i].0.clone());
        }
        proof {
            let pre = p.assets@.subrange(0, i as int);
            let next = p.assets@.subrange(0, i + 1);
            assert forall|q: Seq<char>| font_assets(next).contains(q) <==> (font_assets(pre).contains(q)
                || (p.assets@[i as int].0@ == q && p.assets@[i as int].1.kind == AssetKind::Font)) by {
                if font_assets(next).contains(q) {
                    let t = choose|t: int| 0 <= t < next.len() && (#[trigger] next[t]).0@ == q && next[t].1.kind == AssetKind::Font;
                    if t < i {
                        assert(pre[t] == next[t]);
                    }
                }
                if font_assets(pre).contains(q) {
                    let t = choose|t: int| 0 <= t < pre.len() && (#[trigger] pre[t]).0@ == q && pre[t].1.kind == AssetKind::Font;
                    assert(next[t] == pre[t]);
                }
                if p.assets@[i as int].0@ == q && p.assets@[i as int].1.kind == AssetKind::Font {
                    assert(next[i as int] == p.assets@[i as int]);
                }
            }
            assert(names_in(r@) =~= from_cue.union(font_assets(next)));
        }
        i = i + 1;
    }
    proof {
        assert(p.assets@.subrange(0, p.assets@.len() as int) =~= p.assets@);
    }
    r
}

/// The diagnostic of an index that does not match its program.
pub open spec fn bad_index(d: Diagnostic) -> bool {
    diag_is(d, "E_EXECUTABLE"@, "executable"@, "invalid index, recovery map, cost or recipe"@)
}

fn bad() -> (d: Diagnostic)
    ensures
        bad_index(d),
{
    Diagnostic::new("E_EXECUTABLE", "executable", "invalid index, recovery map, cost or recipe")
}

/// Checks that an executable's index is exactly the one its program determines.
pub fn validate_executable(e: &Executable) -> (r: Result<(), Diagnostic>)
    ensures
        r is Ok <==> index_valid(*e),
        r matches Err(d) ==> bad_index(d),
{
    let expected = program_address_list(&e.program.functions);
    let ghost exp = program_addresses(e.program.functions@);
    if e.format != FORMAT_VERSION || e.addresses.len() != expected.len() || e.resume_map.len() != expected.len()
        || e.semantic_cost_map.len() != expected.len() || e.activation_recipes.len() != e.program.cues.len() {
        proof {
            assert(address_views(expected@).len() == expected@.len());
        }
        return Err(bad());
    }
    proof {
        assert(address_views(expected@).len() == expected@.len());
    }
    let mut i: usize = 0;
    while i < expected.len()
        invariant
            exp == program_addresses(e.program.functions@),
            address_views(expected@) == exp,
            exp.len() == expected@.len(),
            e.addresses@.len() == exp.len(),
            e.semantic_cost_map@.len() == exp.len(),
            i <= exp.len(),
            forall|k: int| 0 <= k < i ==> {
                &&& address_view(#[trigger] e.addresses@[k]) == exp[k]
                &&& assoc(e.resume_map@, address_key(e.addresses@[k])) == Some(k as u32)
                &&& e.semantic_cost_map@[k] == 1
            },
        decreases exp.len() - i,
    {
        let a = &e.addresses[i];
        let x = &expected[i];
        proof {
            assert(address_views(expected@)[i as int] == address_view(expected@[i as int]));
        }
        if !crate::strings::str_eq(a.function.as_str(), x.function.as_str()) || !crate::strings::str_eq(a.block.as_str(), x.block.as_str())
            || a.op != x.op || !crate::strings::str_eq(a.stable_id.as_str(), x.stable_id.as_str()) {
            proof {
                assert(address_view(e.addresses@[i as int]) != exp[i as int]);
            }
            return Err(bad());
        }
        let key = a.key();
        let position = i as u32;
        let resumes = match get_entry(&e.resume_map, key.as_str()) {
            Some(v) => *v == position,
            None => false,
        };
        if !resumes || e.semantic_cost_map[i] != 1 {
            return Err(bad());
        }
        i = i + 1;
    }
    let mut j: usize = 0;
    while j < e.program.cues.len()
        invariant
            j <= e.program.cues@.len(),
            forall|k: int| 0 <= k < j ==> {
                let r = assoc(e.activation_recipes@, (#[trigger] e.program.cues@[k]).0@);
                r is Some && names_in(r.unwrap()@) == cue_asset_set(e.program, e.program.cues@[k].0@)
            },
        decreases e.program.cues@.len() - j,
    {
        let cue = e.program.cues[j].0.as_str();
        match get_entry(&e.activation_recipes, cue) {
            None => return Err(bad()),
            Some(recipe) => {
                let want = cue_assets(&e.program, cue);
                if !same_names(recipe, &want) {
                    return Err(bad());
                }
            },
        }
        j = j + 1;
    }
    Ok(())
}

/// No two addresses share a resume key.
pub open spec fn keys_distinct(v: Seq<AddressView>) -> bool {
    forall|i: int, j: int| 0 <= i < j < v.len() ==> view_key(#[trigger] v[i]) != view_key(#[trigger] v[j])
}

/// No two cues share a name.
pub open spec fn cue_names_distinct(c: Seq<(String, Cue)>) -> bool {
    forall|i: int, j: int| 0 <= i < j < c.len() ==> (#[trigger] c[i]).0@ != (#[trigger] c[j]).0@
}

/// Builds the executable index of a program and checks it. It succeeds
/// exactly when no two addresses share a resume key and no two cues share a
/// name; the index it returns is then the one `validate_executable` accepts.
pub fn compile(p: ProgramTables) -> (r: Result<Executable, Diagnostic>)
    ensures
        r is Ok <==> keys_distinct(program_addresses(p.functions@)) && cue_names_distinct(p.cues@),
        r matches Ok(e) ==> e.program == p && index_valid(e) && address_views(e.addresses@) == program_addresses(p.functions@),
        r matches Err(d) ==> bad_index(d),
{
    let addresses = program_address_list(&p.functions);
    let ghost exp = program_addresses(p.functions@);
    proof {
        assert(address_views(addresses@).len() == addresses@.len());
    }
    let mut resume_map: Vec<(String, u32)> = Vec::new();
    let mut cost: Vec<u32> = Vec::new();
    let mut i: usize = 0;
    while i < addresses.len()
        invariant
            address_views(addresses@) == exp,
            exp.len() == addresses@.len(),
            i <= addresses@.len(),
            cost@.len() == i,
            forall|k: int| 0 <= k < i ==> cost@[k] == 1,
            resume_map@.len() <= i,
            keys_distinct(exp.subrange(0, i as int)) <==> resume_map@.len() == i,
            forall|q: Seq<char>| #[trigger] assoc_keys(resume_map@).contains(q) <==> exists|k: int| 0 <= k < i && view_key(#[trigger] exp[k]) == q,
            keys_distinct(exp.subrange(0, i as int)) ==> forall|k: int| 0 <= k < i ==> #[trigger] assoc(resume_map@, view_key(exp[k])) == Some(k as u32),
        decreases addresses@.len() - i,
    {
        let key = addresses[i].key();
        proof {
            assert(address_views(addresses@)[i as int] == address_view(addresses@[i as int]));
            assert(key@ == view_key(exp[i as int]));
        }
        let ghost old_map = resume_map@;
        let ghost was_known = assoc_keys(old_map).contains(key@);
        put_entry(&mut resume_map, key, i as u32);
        cost.push(1);
        proof {
            let pre = exp.subrange(0, i as int);
            let next = exp.subrange(0, i + 1);
            assert forall|a: int, b: int| 0 <= a < b < pre.len() implies view_key(#[trigger] pre[a]) != view_key(#[trigger] pre[b]) <== keys_distinct(next) by {
                assert(pre[a] == next[a]);
                assert(pre[b] == next[b]);
            }
            if was_known {
                let k = choose|k: int| 0 <= k < i && view_key(#[trigger] exp[k]) == key@;
                assert(next[k] == exp[k]);
                assert(next[i as int] == exp[i as int]);
                assert(!keys_distinct(next));
            } else {
                if keys_distinct(pre) {
                    assert forall|a: int, b: int| 0 <= a < b < next.len() implies view_key(#[trigger] next[a]) != view_key(#[trigger] next[b]) by {
                        if b == i {
                            assert(next[a] == exp[a]);
                            assert(next[b] == exp[i as int]);
                        } else {
                            assert(next[a] == pre[a]);
                            assert(next[b] == pre[b]);
                        }
                    }
                }
            }
            assert forall|q: Seq<char>| #[trigger] assoc_keys(resume_map@).contains(q) <==> exists|k: int| 0 <= k < i + 1 && view_key(#[trigger] exp[k]) == q by {
                if q == key@ {
                    assert(view_key(exp[i as int]) == q);
                }
            }
        }
        i = i + 1;
    }
    proof {
        assert(exp.subrange(0, exp.len() as int) =~= exp);
    }
    let mut recipes: Vec<(String, Vec<String>)> = Vec::new();
    let mut j: usize = 0;
    while j < p.cues.len()
        invariant
            j <= p.cues@.len(),
            recipes@.len() <= j,
            cue_names_distinct(p.cues@.subrange(0, j as int)) <==> recipes@.len() == j,
            forall|q: Seq<char>| #[trigger] assoc_keys(recipes@).contains(q) <==> exists|k: int| 0 <= k < j && (#[trigger] p.cues@[k]).0@ == q,
            cue_names_distinct(p.cues@.subrange(0, j as int)) ==> forall|k: int| 0 <= k < j ==> {
                let r = assoc(recipes@, (#[trigger] p.cues@[k]).0@);
                r is Some && names_in(r.unwrap()@) == cue_asset_set(p, p.cues@[k].0@)
            },
        decreases p.cues@.len() - j,
    {
        let key = p.cues[j].0.clone();
        let set = cue_assets(&p, key.as_str());
        let ghost was_known = assoc_keys(recipes@).contains(key@);
        put_entry(&mut recipes, key, set);
        proof {
            let pre = p.cues@.subrange(0, j as int);
            let next = p.cues@.subrange(0, j + 1);
            if was_known {
                let k = choose|k: int| 0 <= k < j && (#[trigger] p.cues@[k]).0@ == key@;
                assert(next[k] == p.cues@[k]);
                assert(next[j as int] == p.cues@[j as int]);
                assert(!cue_names_distinct(next));
            } else {
                assert(cue_names_distinct(next) ==> cue_names_distinct(pre)) by {
                    if cue_names_distinct(next) {
                        assert forall|a: int, b: int| 0 <= a < b < pre.len() implies (#[trigger] pre[a]).0@ != (#[trigger] pre[b]).0@ by {
                            assert(pre[a] == next[a]);
                            assert(pre[b] == next[b]);
                        }
                    }
                }
                if cue_names_distinct(pre) {
                    assert forall|a: int, b: int| 0 <= a < b < next.len() implies (#[trigger] next[a]).0@ != (#[trigger] next[b]).0@ by {
                        if b == j {
                            assert(next[a] == p.cues@[a]);
                            assert(next[b] == p.cues@[j as int]);
                        } else {
                            assert(next[a] == pre[a]);
                            assert(next[b] == pre[b]);
                        }
                    }
                }
            }
            assert forall|q: Seq<char>| #[trigger] assoc_keys(recipes@).contains(q) <==> exists|k: int| 0 <= k < j + 1 && (#[trigger] p.cues@[k]).0@ == q by {
                if q == key@ {
                    assert(p.cues@[j as int].0@ == q);
                }
            }
        }
        j = j + 1;
    }
    proof {
        assert(p.cues@.subrange(0, p.cues@.len() as int) =~= p.cues@);
    }
    let ghost program = p;
    let e = Executable {
        format: FORMAT_VERSION,
        program: p,
        addresses,
        resume_map,
        semantic_cost_map: cost,
        activation_recipes: recipes,
    };
    proof {
        if keys_distinct(exp) && cue_names_distinct(program.cues@) {
            assert forall|k: int| 0 <= k < exp.len() implies {
                &&& address_view(#[trigger] e.addresses@[k]) == exp[k]
                &&& assoc(e.resume_map@, address_key(e.addresses@[k])) == Some(k as u32)
                &&& e.semantic_cost_map@[k] == 1
            } by {
                assert(address_views(e.addresses@)[k] == address_view(e.addresses@[k]));
                assert(address_key(e.addresses@[k]) == view_key(exp[k]));
            }
            assert(index_valid(e));
        }
    }
    match validate_executable(&e) {
        Ok(()) => Ok(e),
        Err(d) => Err(d),
    }
}

} // verus!
