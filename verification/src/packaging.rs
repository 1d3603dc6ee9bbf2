//! The plan of a release's runtime packages: which module owns each
//! function, text, scene, cue, choice and task; which assets travel in
//! which catalog, grouped by the set of their consumers; and, for each
//! module, what its code, static and per-locale text packages hold. The
//! caller serializes, hashes and writes the packages the plan describes.
use crate::assoc::{assoc, contains_name, get_entry, lemma_assoc_first};
use crate::expr::{less, name_less};
use crate::format::{Asset, AssetKind, Choice, Cue, Effect, EffectDef, Function, Node, TextContract, TextDoc};
use crate::identity::{content_digest, digest};
use crate::modules::{asset_consumers, asset_uses, consumers_of, font_uses, labeled, module_label, node_assets, audio_assets, scene_uses, cue_uses, title_nodes, used};
use crate::order::lemma_name_order;
use crate::ownership::{
    assign_ownership, clash_check, claimed, coverage_fails, first_msg, function_claims, module_check, module_claims_error,
    name_check, name_claim_error, ownership_error, task_claims, task_owner_error, task_owners, text_claims, ModuleClaims, Ownership,
};
use crate::release::{declaration_owner, owner_of, owns};
use crate::source::Program;
use crate::strings::{concat, owned, str_eq};
use crate::assoc::assoc_keys;
use crate::table::names_in;
use vstd::prelude::*;

verus! {

/// The views of a list of names.
pub open spec fn views(v: Seq<String>) -> Seq<Seq<char>> {
    v.map_values(|s: String| s@)
}

/// The names of a program's functions, in order.
pub open spec fn function_keys(p: Program) -> Seq<String> {
    p.functions@.map_values(|e: (String, Function)| e.0)
}

/// The names of a program's text contracts, in order.
pub open spec fn text_keys(p: Program) -> Seq<String> {
    p.texts@.map_values(|e: (String, TextContract)| e.0)
}

/// The names of the modules, in order.
pub open spec fn module_names(ms: Seq<(String, ModuleClaims)>) -> Seq<Seq<char>> {
    ms.map_values(|m: (String, ModuleClaims)| m.0@)
}

proof fn lemma_names_in_views(a: Seq<String>, b: Seq<String>)
    requires
        views(a) == views(b),
    ensures
        names_in(a) == names_in(b),
{
    assert(views(a).len() == a.len() && views(b).len() == b.len());
    assert forall|x: Seq<char>| names_in(a).contains(x) <==> names_in(b).contains(x) by {
        if names_in(a).contains(x) {
            let i = choose|i: int| 0 <= i < a.len() && (#[trigger] a[i])@ == x;
            assert(views(a)[i] == x);
            assert(b[i]@ == views(b)[i]);
        }
        if names_in(b).contains(x) {
            let i = choose|i: int| 0 <= i < b.len() && (#[trigger] b[i])@ == x;
            assert(views(b)[i] == x);
            assert(a[i]@ == views(a)[i]);
        }
    }
    assert(names_in(a) =~= names_in(b));
}

proof fn lemma_name_check_views(
    start: Seq<(Seq<char>, Seq<char>)>,
    names: Seq<String>,
    m: Seq<char>,
    d1: Seq<String>,
    d2: Seq<String>,
    missing: bool,
    kind: Seq<char>,
)
    requires
        names_in(d1) == names_in(d2),
    ensures
        name_check(start, names, m, d1, missing, kind) == name_check(start, names, m, d2, missing, kind),
{
    assert(name_check(start, names, m, d1, missing, kind) =~= name_check(start, names, m, d2, missing, kind));
}

proof fn lemma_module_claims_views(ms: Seq<(String, ModuleClaims)>, fs: Seq<String>, ts: Seq<String>, fs2: Seq<String>, ts2: Seq<String>, i: int)
    requires
        names_in(fs) == names_in(fs2),
        names_in(ts) == names_in(ts2),
    ensures
        module_claims_error(ms, fs, ts, i) == module_claims_error(ms, fs2, ts2, i),
{
    let m = ms[i].0@;
    let c = ms[i].1;
    lemma_name_check_views(function_claims(ms, i), c.functions@, m, fs, fs2, true, "function"@);
    lemma_name_check_views(text_claims(ms, i), c.texts@, m, ts, ts2, false, "text"@);
}

/// Owner assignment reads the program's names only through their text.
proof fn lemma_ownership_views(ms: Seq<(String, ModuleClaims)>, fs: Seq<String>, ts: Seq<String>, fs2: Seq<String>, ts2: Seq<String>)
    requires
        views(fs) == views(fs2),
        views(ts) == views(ts2),
    ensures
        ownership_error(ms, fs, ts) == ownership_error(ms, fs2, ts2),
{
    lemma_names_in_views(fs, fs2);
    lemma_names_in_views(ts, ts2);
    assert forall|i: int| #![trigger module_check(ms, fs, ts)(i)] module_check(ms, fs, ts)(i) == module_check(ms, fs2, ts2)(i) by {
        lemma_module_claims_views(ms, fs, ts, fs2, ts2, i);
    }
    assert(module_check(ms, fs, ts) =~= module_check(ms, fs2, ts2));
    assert(fs.len() == views(fs).len() && fs2.len() == views(fs2).len());
    assert(ts.len() == views(ts).len() && ts2.len() == views(ts2).len());
    assert forall|j: int| 0 <= j < fs.len() implies (#[trigger] fs[j])@ == fs2[j]@ by {
        assert(views(fs)[j] == views(fs2)[j]);
    }
    assert forall|j: int| 0 <= j < ts.len() implies (#[trigger] ts[j])@ == ts2[j]@ by {
        assert(views(ts)[j] == views(ts2)[j]);
    }
    let fc = function_claims(ms, ms.len() as int);
    let tc = text_claims(ms, ms.len() as int);
    if exists|j: int| 0 <= j < fs.len() && !crate::ownership::key_in(fc, (#[trigger] fs[j])@) {
        let j = choose|j: int| 0 <= j < fs.len() && !crate::ownership::key_in(fc, (#[trigger] fs[j])@);
        assert(fs2[j]@ == fs[j]@);
    }
    if exists|j: int| 0 <= j < fs2.len() && !crate::ownership::key_in(fc, (#[trigger] fs2[j])@) {
        let j = choose|j: int| 0 <= j < fs2.len() && !crate::ownership::key_in(fc, (#[trigger] fs2[j])@);
        assert(fs[j]@ == fs2[j]@);
    }
    if exists|j: int| 0 <= j < ts.len() && !crate::ownership::key_in(tc, (#[trigger] ts[j])@) {
        let j = choose|j: int| 0 <= j < ts.len() && !crate::ownership::key_in(tc, (#[trigger] ts[j])@);
        assert(ts2[j]@ == ts[j]@);
    }
    if exists|j: int| 0 <= j < ts2.len() && !crate::ownership::key_in(tc, (#[trigger] ts2[j])@) {
        let j = choose|j: int| 0 <= j < ts2.len() && !crate::ownership::key_in(tc, (#[trigger] ts2[j])@);
        assert(ts[j]@ == ts2[j]@);
    }
    assert(coverage_fails(ms, fs, ts) == coverage_fails(ms, fs2, ts2));
}

/// The error of declaration `k` of `ids`: one no module owns.
pub open spec fn decl_check(ids: Seq<Seq<char>>, names: Seq<Seq<char>>) -> spec_fn(int) -> Option<Seq<char>> {
    |k: int| if owner_of(ids[k], names) is None {
        Some("E_MODULE_OWNERSHIP: no module owns "@ + ids[k])
    } else {
        None
    }
}

/// The names of a table's entries, in order.
pub open spec fn entry_names<T>(v: Seq<(String, T)>) -> Seq<Seq<char>> {
    v.map_values(|e: (String, T)| e.0@)
}

/// The task claims of the first `i` cues: each effect of a cue with the
/// cue's owner.
pub open spec fn cue_task_claims(cues: Seq<(String, Cue)>, names: Seq<Seq<char>>, i: int) -> Seq<(Seq<char>, Seq<char>)>
    decreases i,
{
    if i <= 0 {
        Seq::empty()
    } else {
        cue_task_claims(cues, names, i - 1) + cues[i - 1].1.effects@.map_values(
            |e: EffectDef| (e.id@, owner_of(cues[i - 1].0@, names).unwrap()),
        )
    }
}

/// The first ownership error of a program's declarations: an owner table
/// error; else a scene, cue or choice that no module owns, in that order;
/// else a task that cues of two modules define.
pub open spec fn owners_error(p: Program, ms: Seq<(String, ModuleClaims)>) -> Option<Seq<char>> {
    let names = module_names(ms);
    let claims = cue_task_claims(p.cues@, names, p.cues@.len() as int);
    match ownership_error(ms, function_keys(p), text_keys(p)) {
        Some(e) => Some(e),
        None => match first_msg(p.scenes@.len() as int, decl_check(entry_names(p.scenes@), names)) {
            Some(e) => Some(e),
            None => match first_msg(p.cues@.len() as int, decl_check(entry_names(p.cues@), names)) {
                Some(e) => Some(e),
                None => match first_msg(p.choices@.len() as int, decl_check(entry_names(p.choices@), names)) {
                    Some(e) => Some(e),
                    None => first_msg(claims.len() as int, clash_check(claims)),
                },
            },
        },
    }
}

/// The owners of a program's declarations.
#[derive(Debug, Clone)]
pub struct DeclarationOwners {
    pub ownership: Ownership,
    pub scene_owners: Vec<(String, String)>,
    pub cue_owners: Vec<(String, String)>,
    pub choice_owners: Vec<(String, String)>,
    pub task_owners: Vec<(String, String)>,
}

/// Each entry of `owners` pairs entry `k` of `ids` with its owner.
pub open spec fn owner_table(owners: Seq<(String, String)>, ids: Seq<Seq<char>>, names: Seq<Seq<char>>) -> bool {
    &&& owners.len() == ids.len()
    &&& forall|k: int| 0 <= k < owners.len() ==> (#[trigger] owners[k]).0@ == ids[k] && owner_of(ids[k], names) == Some(owners[k].1@)
}

fn copy_keys<T>(v: &Vec<(String, T)>) -> (r: Vec<String>)
    ensures
        views(r@) == entry_names(v@),
{
    let mut r: Vec<String> = Vec::new();
    let mut i: usize = 0;
    while i < v.len()
        invariant
            i <= v@.len(),
            r@.len() == i,
            views(r@) == entry_names(v@).subrange(0, i as int),
        decreases v@.len() - i,
    {
        let ghost before = r@;
        r.push(v[i].0.clone());
        proof {
            assert forall|q: int| 0 <= q < i + 1 implies views(r@)[q] == entry_names(v@).subrange(0, i + 1)[q] by {
                if q < i {
                    assert(r@[q] == before[q]);
                    assert(views(before)[q] == entry_names(v@).subrange(0, i as int)[q]);
                }
            }
            assert(views(r@) =~= entry_names(v@).subrange(0, i + 1));
        }
        i = i + 1;
    }
    proof {
        assert(entry_names(v@).subrange(0, v@.len() as int) =~= entry_names(v@));
    }
    r
}

fn owners_of<T>(v: &Vec<(String, T)>, names: &Vec<String>, Ghost(spec_names): Ghost<Seq<Seq<char>>>) -> (r: Result<Vec<(String, String)>, String>)
    requires
        views(names@) == spec_names,
    ensures
        match first_msg(v@.len() as int, decl_check(entry_names(v@), spec_names)) {
            Some(e) => r matches Err(x) && x@ == e,
            None => r matches Ok(o) && owner_table(o@, entry_names(v@), spec_names),
        },
{
    let ghost f = decl_check(entry_names(v@), spec_names);
    let mut o: Vec<(String, String)> = Vec::new();
    let mut i: usize = 0;
    while i < v.len()
        invariant
            i <= v@.len(),
            views(names@) == spec_names,
            f == decl_check(entry_names(v@), spec_names),
            first_msg(i as int, f) is None,
            o@.len() == i,
            forall|k: int| 0 <= k < i ==> (#[trigger] o@[k]).0@ == entry_names(v@)[k] && owner_of(entry_names(v@)[k], spec_names) == Some(o@[k].1@),
        decreases v@.len() - i,
    {
        let id = v[i].0.as_str();
        proof {
            assert(names@.map_values(|m: String| m@) == views(names@));
            assert(entry_names(v@)[i as int] == id@);
        }
        match declaration_owner(id, names) {
            Ok(m) => {
                o.push((v[i].0.clone(), m));
            },
            Err(e) => {
                proof {
                    crate::ownership::lemma_first_msg_hit(f, i as int, v@.len() as int);
                }
                return Err(e);
            },
        }
        i = i + 1;
    }
    Ok(o)
}

fn effect_ids(cues: &Vec<(String, Cue)>) -> (r: Vec<(String, Vec<String>)>)
    ensures
        r@.len() == cues@.len(),
        forall|k: int| 0 <= k < r@.len() ==> (#[trigger] r@[k]).0@ == cues@[k].0@
            && views(r@[k].1@) == cues@[k].1.effects@.map_values(|e: EffectDef| e.id@),
{
    let mut r: Vec<(String, Vec<String>)> = Vec::new();
    let mut i: usize = 0;
    while i < cues.len()
        invariant
            i <= cues@.len(),
            r@.len() == i,
            forall|k: int| 0 <= k < i ==> (#[trigger] r@[k]).0@ == cues@[k].0@
                && views(r@[k].1@) == cues@[k].1.effects@.map_values(|e: EffectDef| e.id@),
        decreases cues@.len() - i,
    {
        let effs = &cues[i].1.effects;
        let mut ids: Vec<String> = Vec::new();
        let mut j: usize = 0;
        while j < effs.len()
            invariant
                j <= effs@.len(),
                ids@.len() == j,
                views(ids@) == effs@.map_values(|e: EffectDef| e.id@).subrange(0, j as int),
            decreases effs@.len() - j,
        {
            let ghost before = ids@;
            ids.push(effs[j].id.clone());
            proof {
                assert forall|q: int| 0 <= q < j + 1 implies views(ids@)[q] == effs@.map_values(|e: EffectDef| e.id@).subrange(0, j + 1)[q] by {
                    if q < j {
                        assert(ids@[q] == before[q]);
                        assert(views(before)[q] == effs@.map_values(|e: EffectDef| e.id@).subrange(0, j as int)[q]);
                    }
                }
                assert(views(ids@) =~= effs@.map_values(|e: EffectDef| e.id@).subrange(0, j + 1));
            }
            j = j + 1;
        }
        proof {
            assert(effs@.map_values(|e: EffectDef| e.id@).subrange(0, effs@.len() as int) =~= effs@.map_values(|e: EffectDef| e.id@));
        }
        r.push((cues[i].0.clone(), ids));
        i = i + 1;
    }
    r
}

proof fn lemma_assoc_owned(o: Seq<(String, String)>, names: Seq<Seq<char>>, c: Seq<char>, k: int)
    requires
        0 <= k < o.len(),
        o[k].0@ == c,
        forall|j: int| 0 <= j < o.len() ==> owner_of((#[trigger] o[j]).0@, names) == Some(o[j].1@),
    ensures
        assoc(o, c) matches Some(x) && owner_of(c, names) == Some(x@),
    decreases k,
{
    assert(owner_of(o[0].0@, names) == Some(o[0].1@));
    if o[0].0@ != c {
        let t = o.drop_first();
        assert forall|j: int| 0 <= j < t.len() implies owner_of((#[trigger] t[j]).0@, names) == Some(t[j].1@) by {
            assert(t[j] == o[j + 1]);
        }
        assert(t[k - 1] == o[k]);
        lemma_assoc_owned(t, names, c, k - 1);
    }
}

proof fn lemma_owner_assoc(o: Seq<(String, String)>, ids: Seq<Seq<char>>, names: Seq<Seq<char>>, k: int)
    requires
        owner_table(o, ids, names),
        0 <= k < ids.len(),
    ensures
        assoc(o, ids[k]) matches Some(x) && owner_of(ids[k], names) == Some(x@),
{
    assert forall|j: int| 0 <= j < o.len() implies owner_of((#[trigger] o[j]).0@, names) == Some(o[j].1@) by {
        assert(o[j].0@ == ids[j]);
    }
    assert(o[k].0@ == ids[k]);
    lemma_assoc_owned(o, names, ids[k], k);
}

#[verifier::rlimit(40)]
proof fn lemma_task_claims_match(
    cues: Seq<(String, Cue)>,
    eff: Seq<(String, Vec<String>)>,
    co: Seq<(String, String)>,
    names: Seq<Seq<char>>,
    i: int,
)
    requires
        0 <= i <= cues.len(),
        eff.len() == cues.len(),
        forall|k: int| 0 <= k < eff.len() ==> (#[trigger] eff[k]).0@ == cues[k].0@
            && views(eff[k].1@) == cues[k].1.effects@.map_values(|e: EffectDef| e.id@),
        owner_table(co, entry_names(cues), names),
    ensures
        task_claims(eff, co, i) == cue_task_claims(cues, names, i),
    decreases i,
{
    if i > 0 {
        lemma_task_claims_match(cues, eff, co, names, i - 1);
        let k = i - 1;
        assert(eff[k].0@ == cues[k].0@);
        assert(entry_names(cues)[k] == cues[k].0@);
        lemma_owner_assoc(co, entry_names(cues), names, k);
        let a = claimed(eff[k].1@, crate::ownership::cue_owner(co, eff[k].0@));
        let b = cues[k].1.effects@.map_values(|e: EffectDef| (e.id@, owner_of(cues[k].0@, names).unwrap()));
        assert(views(eff[k].1@).len() == eff[k].1@.len());
        assert(a.len() == b.len());
        assert forall|q: int| 0 <= q < a.len() implies a[q] == b[q] by {
            assert(views(eff[k].1@)[q] == eff[k].1@[q]@);
            assert(cues[k].1.effects@.map_values(|e: EffectDef| e.id@)[q] == cues[k].1.effects@[q].id@);
        }
        assert(a =~= b);
    }
}

/// Assigns owners to a program's functions and texts (from the module
/// claims) and to its scenes, cues, choices and tasks (by their module
/// prefix); the first failure is the error.
pub fn declaration_owners(p: &Program, modules: &Vec<(String, ModuleClaims)>) -> (r: Result<DeclarationOwners, String>)
    ensures
        match owners_error(*p, modules@) {
            Some(e) => r matches Err(x) && x@ == e,
            None => r matches Ok(d) && {
                let names = module_names(modules@);
                &&& pair_views_ok(d.ownership, modules@)
                &&& owner_table(d.scene_owners@, entry_names(p.scenes@), names)
                &&& owner_table(d.cue_owners@, entry_names(p.cues@), names)
                &&& owner_table(d.choice_owners@, entry_names(p.choices@), names)
                &&& crate::ownership::keys_distinct(crate::ownership::pair_views(d.task_owners@))
                &&& crate::ownership::owners_agree(
                    crate::ownership::pair_views(d.task_owners@),
                    cue_task_claims(p.cues@, names, p.cues@.len() as int),
                )
            },
        },
{
    let ghost names = module_names(modules@);
    let fids = copy_keys(&p.functions);
    let tids = copy_keys(&p.texts);
    proof {
        assert(views(fids@) =~= views(function_keys(*p)));
        assert(views(tids@) =~= views(text_keys(*p)));
        lemma_ownership_views(modules@, fids@, tids@, function_keys(*p), text_keys(*p));
    }
    let ownership = match assign_ownership(modules, &fids, &tids) {
        Ok(o) => o,
        Err(e) => {
            return Err(e);
        },
    };
    let mnames = copy_keys(modules);
    proof {
        assert(views(mnames@) =~= names);
    }
    let scene_owners = owners_of(&p.scenes, &mnames, Ghost(names))?;
    let cue_owners = owners_of(&p.cues, &mnames, Ghost(names))?;
    let choice_owners = owners_of(&p.choices, &mnames, Ghost(names))?;
    let eff = effect_ids(&p.cues);
    proof {
        lemma_task_claims_match(p.cues@, eff@, cue_owners@, names, p.cues@.len() as int);
        assert forall|i: int| 0 <= i < eff@.len() implies assoc(cue_owners@, (#[trigger] eff@[i]).0@) is Some by {
            assert(entry_names(p.cues@)[i] == p.cues@[i].0@);
            lemma_owner_assoc(cue_owners@, entry_names(p.cues@), names, i);
        }
    }
    let task_owners = task_owners(&eff, &cue_owners)?;
    Ok(DeclarationOwners { ownership, scene_owners, cue_owners, choice_owners, task_owners })
}

/// The owner tables list the module claims in order, each name once.
pub open spec fn pair_views_ok(o: Ownership, ms: Seq<(String, ModuleClaims)>) -> bool {
    &&& crate::ownership::pair_views(o.function_owners@) == function_claims(ms, ms.len() as int)
    &&& crate::ownership::pair_views(o.text_owners@) == text_claims(ms, ms.len() as int)
    &&& crate::ownership::keys_distinct(crate::ownership::pair_views(o.function_owners@))
    &&& crate::ownership::keys_distinct(crate::ownership::pair_views(o.text_owners@))
}

/// The assets of scenes, each labelled with the module that owns the scene.
pub open spec fn owned_scene_uses(scenes: Seq<(String, Vec<Node>)>, names: Seq<Seq<char>>) -> Seq<(Seq<char>, Seq<char>)>
    decreases scenes.len(),
{
    if scenes.len() == 0 {
        Seq::empty()
    } else {
        owned_scene_uses(scenes.drop_last(), names) + match owner_of(scenes.last().0@, names) {
            Some(m) => labeled(node_assets(scenes.last().1@), module_label(m)),
            None => Seq::empty(),
        }
    }
}

/// The audio assets of cues, each labelled with the module that owns the cue.
pub open spec fn owned_cue_uses(cues: Seq<(String, Cue)>, names: Seq<Seq<char>>) -> Seq<(Seq<char>, Seq<char>)>
    decreases cues.len(),
{
    if cues.len() == 0 {
        Seq::empty()
    } else {
        owned_cue_uses(cues.drop_last(), names) + match owner_of(cues.last().0@, names) {
            Some(m) => labeled(audio_assets(cues.last().1.effects@), module_label(m)),
            None => Seq::empty(),
        }
    }
}

/// Every use of an asset in a program with its consumer: the modules that
/// own the scenes showing it and the cues playing it, the bootstrap for the
/// title scene, and each UI and text locale whose font plan lists it.
pub open spec fn program_uses(p: Program, names: Seq<Seq<char>>) -> Seq<(Seq<char>, Seq<char>)> {
    owned_scene_uses(p.scenes@, names) + owned_cue_uses(p.cues@, names) + match title_nodes(p.scenes@, p.title_scene) {
        Some(n) => labeled(node_assets(n), "bootstrap"@),
        None => Seq::empty(),
    } + font_uses(p.locale_config.ui@, "locale:ui:"@) + font_uses(p.locale_config.text@, "locale:text:"@)
}

proof fn lemma_scene_uses_match(scenes: Seq<(String, Vec<Node>)>, o: Seq<(String, String)>, names: Seq<Seq<char>>)
    requires
        forall|k: int| 0 <= k < scenes.len() ==> crate::modules::owner_of(o, (#[trigger] scenes[k]).0@) == owner_of(scenes[k].0@, names),
    ensures
        scene_uses(scenes, o) == owned_scene_uses(scenes, names),
    decreases scenes.len(),
{
    if scenes.len() > 0 {
        let d = scenes.drop_last();
        assert forall|k: int| 0 <= k < d.len() implies crate::modules::owner_of(o, (#[trigger] d[k]).0@) == owner_of(d[k].0@, names) by {
            assert(d[k] == scenes[k]);
        }
        lemma_scene_uses_match(d, o, names);
        assert(scenes.last() == scenes[scenes.len() - 1]);
    }
}

proof fn lemma_cue_uses_match(cues: Seq<(String, Cue)>, o: Seq<(String, String)>, names: Seq<Seq<char>>)
    requires
        forall|k: int| 0 <= k < cues.len() ==> crate::modules::owner_of(o, (#[trigger] cues[k]).0@) == owner_of(cues[k].0@, names),
    ensures
        cue_uses(cues, o) == owned_cue_uses(cues, names),
    decreases cues.len(),
{
    if cues.len() > 0 {
        let d = cues.drop_last();
        assert forall|k: int| 0 <= k < d.len() implies crate::modules::owner_of(o, (#[trigger] d[k]).0@) == owner_of(d[k].0@, names) by {
            assert(d[k] == cues[k]);
        }
        lemma_cue_uses_match(d, o, names);
        assert(cues.last() == cues[cues.len() - 1]);
    }
}

proof fn lemma_uses_match(p: Program, so: Seq<(String, String)>, co: Seq<(String, String)>, names: Seq<Seq<char>>)
    requires
        owner_table(so, entry_names(p.scenes@), names),
        owner_table(co, entry_names(p.cues@), names),
    ensures
        asset_uses(p.scenes@, p.cues@, p.title_scene, p.locale_config, so, co) == program_uses(p, names),
{
    assert forall|k: int| 0 <= k < p.scenes@.len() implies crate::modules::owner_of(so, (#[trigger] p.scenes@[k]).0@) == owner_of(p.scenes@[k].0@, names) by {
        assert(entry_names(p.scenes@)[k] == p.scenes@[k].0@);
        lemma_owner_assoc(so, entry_names(p.scenes@), names, k);
    }
    assert forall|k: int| 0 <= k < p.cues@.len() implies crate::modules::owner_of(co, (#[trigger] p.cues@[k]).0@) == owner_of(p.cues@[k].0@, names) by {
        assert(entry_names(p.cues@)[k] == p.cues@[k].0@);
        lemma_owner_assoc(co, entry_names(p.cues@), names, k);
    }
    lemma_scene_uses_match(p.scenes@, so, names);
    lemma_cue_uses_match(p.cues@, co, names);
}

/// `a` is consumed but not declared.
pub open spec fn undeclared(p: Program, uses: Seq<(Seq<char>, Seq<char>)>, a: Seq<char>) -> bool {
    used(uses, a) && assoc(p.assets@, a) is None
}

/// The least consumed asset, in name order, that the program does not
/// declare.
pub open spec fn least_undeclared(p: Program, uses: Seq<(Seq<char>, Seq<char>)>) -> Option<Seq<char>> {
    if exists|a: Seq<char>| undeclared(p, uses, a) {
        Some(choose|a: Seq<char>| undeclared(p, uses, a) && forall|b: Seq<char>| #[trigger] undeclared(p, uses, b) ==> b == a || name_less(a, b))
    } else {
        None
    }
}

/// Names strictly ascend along `s`.
pub open spec fn strictly_ascending(s: Seq<Seq<char>>) -> bool {
    forall|i: int, j: int| 0 <= i < j < s.len() ==> name_less(#[trigger] s[i], #[trigger] s[j])
}

/// Sorts a list of names, each once.
pub fn sorted_names(v: &Vec<String>) -> (r: Vec<String>)
    ensures
        strictly_ascending(views(r@)),
        names_in(r@) == names_in(v@),
{
    let mut r: Vec<String> = Vec::new();
    let mut i: usize = 0;
    while i < v.len()
        invariant
            i <= v@.len(),
            strictly_ascending(views(r@)),
            forall|x: Seq<char>| names_in(r@).contains(x) <==> exists|k: int| 0 <= k < i && (#[trigger] v@[k])@ == x,
        decreases v@.len() - i,
    {
        let x = &v[i];
        let mut pos: usize = 0;
        while pos < r.len() && less(r[pos].as_str(), x.as_str())
            invariant
                pos <= r@.len(),
                forall|q: int| 0 <= q < pos ==> name_less((#[trigger] r@[q])@, x@),
            decreases r@.len() - pos,
        {
            pos = pos + 1;
        }
        let ghost before = r@;
        let dup = pos < r.len() && str_eq(r[pos].as_str(), x.as_str());
        if !dup {
            r.insert(pos, x.clone());
            proof {
                assert forall|a: int, b: int| 0 <= a < b < r@.len() implies name_less(#[trigger] views(r@)[a], #[trigger] views(r@)[b]) by {
                    let va = views(r@)[a];
                    let vb = views(r@)[b];
                    if b < pos {
                        assert(r@[a] == before[a] && r@[b] == before[b]);
                        assert(name_less(views(before)[a], views(before)[b]));
                    } else if b == pos {
                        assert(r@[a] == before[a]);
                    } else if a == pos {
                        assert(r@[b] == before[b - 1]);
                        if b - 1 == pos {
                            lemma_name_order(x@, before[pos as int]@, before[pos as int]@);
                            lemma_name_order(before[pos as int]@, x@, x@);
                        } else {
                            assert(name_less(views(before)[pos as int], views(before)[b - 1]));
                            lemma_name_order(x@, before[pos as int]@, before[b - 1]@);
                            lemma_name_order(before[pos as int]@, x@, x@);
                        }
                    } else if a < pos {
                        assert(r@[a] == before[a] && r@[b] == before[b - 1]);
                        if pos < before.len() {
                            lemma_name_order(before[a]@, x@, before[pos as int]@);
                        }
                        lemma_name_order(before[a]@, x@, before[b - 1]@);
                        if b - 1 > pos {
                            assert(name_less(views(before)[pos as int], views(before)[b - 1]));
                            lemma_name_order(x@, before[pos as int]@, before[b - 1]@);
                            lemma_name_order(before[pos as int]@, x@, x@);
                            lemma_name_order(before[a]@, x@, before[pos as int]@);
                        } else {
                            lemma_name_order(before[pos as int]@, x@, x@);
                        }
                    } else {
                        assert(r@[a] == before[a - 1] && r@[b] == before[b - 1]);
                        assert(name_less(views(before)[a - 1], views(before)[b - 1]));
                    }
                }
            }
        }
        proof {
            assert forall|y: Seq<char>| names_in(r@).contains(y) <==> exists|k: int| 0 <= k < i + 1 && (#[trigger] v@[k])@ == y by {
                if names_in(r@).contains(y) {
                    let q = choose|q: int| 0 <= q < r@.len() && (#[trigger] r@[q])@ == y;
                    if dup {
                        assert(names_in(before).contains(y));
                    } else if q < pos {
                        assert(r@[q] == before[q]);
                        assert(names_in(before).contains(y));
                    } else if q == pos {
                        assert(v@[i as int]@ == y);
                    } else {
                        assert(r@[q] == before[q - 1]);
                        assert(names_in(before).contains(y));
                    }
                }
                if exists|k: int| 0 <= k < i + 1 && (#[trigger] v@[k])@ == y {
                    let k = choose|k: int| 0 <= k < i + 1 && (#[trigger] v@[k])@ == y;
                    if k < i {
                        assert(names_in(before).contains(y));
                        let q = choose|q: int| 0 <= q < before.len() && (#[trigger] before[q])@ == y;
                        if dup {
                            assert(r@[q] == before[q]);
                        } else if q < pos {
                            assert(r@[q] == before[q]);
                        } else {
                            assert(r@[q + 1] == before[q]);
                        }
                    } else {
                        if dup {
                            assert(r@[pos as int]@ == y);
                        } else {
                            assert(r@[pos as int]@ == y);
                        }
                    }
                }
            }
        }
        i = i + 1;
    }
    proof {
        assert forall|x: Seq<char>| names_in(r@).contains(x) <==> names_in(v@).contains(x) by {
            if names_in(v@).contains(x) {
                let k = choose|k: int| 0 <= k < v@.len() && (#[trigger] v@[k])@ == x;
            }
        }
        assert(names_in(r@) =~= names_in(v@));
    }
    r
}

/// The JSON bytes that `serde_json` writes for a list of names: an array
/// of strings.
pub uninterp spec fn names_json(names: Seq<Seq<char>>) -> Seq<u8>;

/// Calls `serde_json::to_vec` on a list of strings. Claims only that the
/// bytes are named by `names_json` of the same names.
#[verifier::external_body]
fn names_json_bytes(names: &Vec<String>) -> (r: Vec<u8>)
    ensures
        r@ == names_json(views(names@)),
{
    match serde_json::to_vec(names) {
        Ok(bytes) => bytes,
        Err(_) => Vec::new(),
    }
}

/// The identity of the catalog of the assets whose consumers are exactly
/// `consumers`, listed in ascending order.
pub open spec fn catalog_name(consumers: Seq<Seq<char>>) -> Seq<char> {
    "catalog."@ + content_digest(names_json(consumers))
}

/// One catalog of a release: its identity, its consumers in ascending
/// order, and its assets.
#[derive(Debug, Clone)]
pub struct CatalogPlan {
    pub id: String,
    pub consumers: Vec<String>,
    pub assets: Vec<String>,
}

/// Two lists hold the same names.
pub open spec fn same_names_set(a: Seq<String>, b: Seq<String>) -> bool {
    names_in(a) == names_in(b)
}

/// Some entry of `consumed` is asset `a` with the consumers of `c`.
pub open spec fn asset_backed(consumed: Seq<(String, Vec<String>)>, c: CatalogPlan, a: String) -> bool {
    exists|y: int| 0 <= y < consumed.len() && (#[trigger] consumed[y]).0@ == a@ && same_names_set(consumed[y].1@, c.consumers@)
}

/// Some catalog of `cs` holds the asset of `e` and has its consumers.
pub open spec fn asset_placed(cs: Seq<CatalogPlan>, e: (String, Vec<String>)) -> bool {
    exists|c: int, k: int| 0 <= c < cs.len() && 0 <= k < cs[c].assets@.len() && (#[trigger] cs[c].assets@[k])@ == e.0@
        && same_names_set(e.1@, cs[c].consumers@)
}

/// `cs` groups the assets of `consumed` (each with its consumers) by their
/// set of consumers: one catalog for each set, named after it, holding
/// exactly the assets with that set.
pub open spec fn catalogs_group(cs: Seq<CatalogPlan>, consumed: Seq<(String, Vec<String>)>) -> bool {
    &&& forall|c: int| 0 <= c < cs.len() ==> strictly_ascending(views((#[trigger] cs[c]).consumers@))
        && cs[c].id@ == catalog_name(views(cs[c].consumers@))
    &&& forall|c: int, d: int| 0 <= c < d < cs.len() ==> views((#[trigger] cs[c]).consumers@) != views((#[trigger] cs[d]).consumers@)
    &&& forall|c: int, k: int| 0 <= c < cs.len() && 0 <= k < cs[c].assets@.len() ==> asset_backed(consumed, cs[c], #[trigger] cs[c].assets@[k])
    &&& forall|x: int| 0 <= x < consumed.len() ==> asset_placed(cs, #[trigger] consumed[x])
}

fn same_names(a: &Vec<String>, b: &Vec<String>) -> (r: bool)
    ensures
        r == (views(a@) == views(b@)),
{
    if a.len() != b.len() {
        proof {
            assert(views(a@).len() != views(b@).len());
        }
        return false;
    }
    let mut i: usize = 0;
    while i < a.len()
        invariant
            a@.len() == b@.len(),
            i <= a@.len(),
            forall|q: int| 0 <= q < i ==> (#[trigger] a@[q])@ == b@[q]@,
        decreases a@.len() - i,
    {
        if !str_eq(a[i].as_str(), b[i].as_str()) {
            proof {
                assert(views(a@)[i as int] != views(b@)[i as int]);
            }
            return false;
        }
        i = i + 1;
    }
    proof {
        assert(views(a@) =~= views(b@));
    }
    true
}

pub(crate) proof fn lemma_sorted_unique(a: Seq<Seq<char>>, b: Seq<Seq<char>>)
    requires
        strictly_ascending(a),
        strictly_ascending(b),
        a.to_set() == b.to_set(),
    ensures
        a == b,
    decreases a.len(),
{
    if a.len() == 0 {
        if b.len() > 0 {
            assert(b.to_set().contains(b[0]));
        }
        assert(b.len() == 0);
    } else if b.len() == 0 {
        assert(a.to_set().contains(a[0]));
    } else {
        let x = a[0];
        let y = b[0];
        assert(a.to_set().contains(x));
        assert(b.to_set().contains(y));
        assert(b.to_set().contains(x));
        assert(a.to_set().contains(y));
        let i = choose|i: int| 0 <= i < b.len() && b[i] == x;
        let j = choose|j: int| 0 <= j < a.len() && a[j] == y;
        if i > 0 {
            assert(name_less(b[0], b[i]));
            if j > 0 {
                assert(name_less(a[0], a[j]));
                lemma_name_order(x, y, x);
            } else {
                lemma_name_order(y, x, y);
            }
        }
        if j > 0 && i == 0 {
            assert(name_less(a[0], a[j]));
            lemma_name_order(x, y, x);
        }
        assert(x == y);
        let a1 = a.drop_first();
        let b1 = b.drop_first();
        assert forall|z: Seq<char>| a1.to_set().contains(z) <==> b1.to_set().contains(z) by {
            if a1.to_set().contains(z) {
                let k = choose|k: int| 0 <= k < a1.len() && a1[k] == z;
                assert(name_less(a[0], a[k + 1]));
                assert(a.to_set().contains(z));
                let q = choose|q: int| 0 <= q < b.len() && b[q] == z;
                if q == 0 {
                    lemma_name_order(x, z, z);
                }
                assert(b1[q - 1] == z);
            }
            if b1.to_set().contains(z) {
                let k = choose|k: int| 0 <= k < b1.len() && b1[k] == z;
                assert(name_less(b[0], b[k + 1]));
                assert(b.to_set().contains(z));
                let q = choose|q: int| 0 <= q < a.len() && a[q] == z;
                if q == 0 {
                    lemma_name_order(x, z, z);
                }
                assert(a1[q - 1] == z);
            }
        }
        assert(a1.to_set() =~= b1.to_set());
        lemma_sorted_unique(a1, b1);
        assert(a.len() == b.len());
        assert forall|k: int| 0 <= k < a.len() implies a[k] == b[k] by {
            if k > 0 {
                assert(a[k] == a1[k - 1]);
                assert(b[k] == b1[k - 1]);
            }
        }
        assert(a =~= b);
    }
}

proof fn lemma_names_in_set(v: Seq<String>)
    ensures
        names_in(v) == views(v).to_set(),
{
    assert forall|x: Seq<char>| names_in(v).contains(x) <==> views(v).to_set().contains(x) by {
        if names_in(v).contains(x) {
            let i = choose|i: int| 0 <= i < v.len() && (#[trigger] v[i])@ == x;
            assert(views(v)[i] == x);
        }
        if views(v).to_set().contains(x) {
            let i = choose|i: int| 0 <= i < views(v).len() && views(v)[i] == x;
            assert(v[i]@ == x);
        }
    }
    assert(names_in(v) =~= views(v).to_set());
}

/// Groups assets by the set of their consumers into catalogs named after
/// that set.
pub fn plan_catalogs(consumed: &Vec<(String, Vec<String>)>) -> (r: Vec<CatalogPlan>)
    ensures
        catalogs_group(r@, consumed@),
{
    let mut cs: Vec<CatalogPlan> = Vec::new();
    let mut x: usize = 0;
    while x < consumed.len()
        invariant
            x <= consumed@.len(),
            forall|c: int| 0 <= c < cs@.len() ==> strictly_ascending(views((#[trigger] cs@[c]).consumers@))
                && cs@[c].id@ == catalog_name(views(cs@[c].consumers@)),
            forall|c: int, d: int| 0 <= c < d < cs@.len() ==> views((#[trigger] cs@[c]).consumers@) != views((#[trigger] cs@[d]).consumers@),
            forall|c: int, k: int| 0 <= c < cs@.len() && 0 <= k < cs@[c].assets@.len() ==> asset_backed(consumed@, cs@[c], #[trigger] cs@[c].assets@[k]),
            forall|y: int| 0 <= y < x ==> asset_placed(cs@, #[trigger] consumed@[y]),
        decreases consumed@.len() - x,
    {
        let key = sorted_names(&consumed[x].1);
        let mut c: usize = 0;
        let mut found = false;
        while c < cs.len() && !found
            invariant
                c <= cs@.len(),
                !found ==> forall|q: int| 0 <= q < c ==> views((#[trigger] cs@[q]).consumers@) != views(key@),
                found ==> 0 < c && views(cs@[c - 1].consumers@) == views(key@),
            decreases cs@.len() - c,
        {
            if same_names(&cs[c].consumers, &key) {
                found = true;
            }
            c = c + 1;
        }
        let ghost before = cs@;
        let ghost asset = consumed@[x as int].0@;
        if found {
            let t = c - 1;
            let mut entry = cs.remove(t);
            entry.assets.push(consumed[x].0.clone());
            cs.insert(t, entry);
            proof {
                assert(cs@ =~= before.update(t as int, cs@[t as int]));
                assert(views(cs@[t as int].consumers@) == views(before[t as int].consumers@));
                assert(names_in(cs@[t as int].consumers@) == names_in(key@)) by {
                    lemma_names_in_set(cs@[t as int].consumers@);
                    lemma_names_in_set(key@);
                }
                assert forall|c2: int, k: int| 0 <= c2 < cs@.len() && 0 <= k < cs@[c2].assets@.len() implies asset_backed(consumed@, cs@[c2], #[trigger] cs@[c2].assets@[k]) by {
                    if c2 == t && k == before[t as int].assets@.len() {
                        assert(cs@[c2].assets@[k]@ == consumed@[x as int].0@);
                        assert(same_names_set(consumed@[x as int].1@, cs@[c2].consumers@));
                    } else if c2 == t {
                        assert(cs@[c2].assets@[k] == before[c2].assets@[k]);
                        assert(asset_backed(consumed@, before[c2], before[c2].assets@[k]));
                        let y = choose|y: int| 0 <= y < consumed@.len() && (#[trigger] consumed@[y]).0@ == before[c2].assets@[k]@ && same_names_set(consumed@[y].1@, before[c2].consumers@);
                        assert(same_names_set(consumed@[y].1@, cs@[c2].consumers@));
                    } else {
                        assert(cs@[c2] == before[c2]);
                        assert(asset_backed(consumed@, before[c2], before[c2].assets@[k]));
                    }
                }
                assert forall|y: int| 0 <= y < x + 1 implies asset_placed(cs@, #[trigger] consumed@[y]) by {
                    if y == x {
                        let k = before[t as int].assets@.len() as int;
                        assert(cs@[t as int].assets@[k]@ == consumed@[y].0@);
                        assert(same_names_set(consumed@[y].1@, cs@[t as int].consumers@));
                    } else {
                        assert(asset_placed(before, consumed@[y]));
                        let (c2, k) = choose|c2: int, k: int| 0 <= c2 < before.len() && 0 <= k < before[c2].assets@.len()
                            && (#[trigger] before[c2].assets@[k])@ == consumed@[y].0@ && same_names_set(consumed@[y].1@, before[c2].consumers@);
                        if c2 == t {
                            assert(cs@[c2].assets@[k] == before[c2].assets@[k]);
                            assert(same_names_set(consumed@[y].1@, cs@[c2].consumers@));
                        } else {
                            assert(cs@[c2] == before[c2]);
                        }
                    }
                }
            }
        } else {
            let id = concat("catalog.", digest(names_json_bytes(&key).as_slice()).as_str());
            let mut assets: Vec<String> = Vec::new();
            assets.push(consumed[x].0.clone());
            cs.push(CatalogPlan { id, consumers: key, assets });
            proof {
                let n = before.len() as int;
                assert(cs@[n].assets@[0]@ == consumed@[x as int].0@);
                assert forall|c2: int, d: int| 0 <= c2 < d < cs@.len() implies views((#[trigger] cs@[c2]).consumers@) != views((#[trigger] cs@[d]).consumers@) by {
                    if d < n {
                        assert(cs@[c2] == before[c2] && cs@[d] == before[d]);
                    } else {
                        assert(cs@[c2] == before[c2]);
                    }
                }
                assert forall|c2: int, k: int| 0 <= c2 < cs@.len() && 0 <= k < cs@[c2].assets@.len() implies asset_backed(consumed@, cs@[c2], #[trigger] cs@[c2].assets@[k]) by {
                    if c2 < n {
                        assert(cs@[c2] == before[c2]);
                        assert(asset_backed(consumed@, before[c2], before[c2].assets@[k]));
                    } else {
                        assert(consumed@[x as int].0@ == cs@[c2].assets@[k]@);
                        assert(same_names_set(consumed@[x as int].1@, cs@[c2].consumers@)) by {
                            lemma_names_in_set(key@);
                        }
                    }
                }
                assert forall|y: int| 0 <= y < x + 1 implies asset_placed(cs@, #[trigger] consumed@[y]) by {
                    if y == x {
                        assert(cs@[n].assets@[0]@ == consumed@[y].0@);
                        assert(same_names_set(consumed@[y].1@, cs@[n].consumers@));
                    } else {
                        assert(asset_placed(before, consumed@[y]));
                        let (c2, k) = choose|c2: int, k: int| 0 <= c2 < before.len() && 0 <= k < before[c2].assets@.len()
                            && (#[trigger] before[c2].assets@[k])@ == consumed@[y].0@ && same_names_set(consumed@[y].1@, before[c2].consumers@);
                        assert(cs@[c2] == before[c2]);
                    }
                }
            }
        }
        x = x + 1;
    }
    proof {
        assert(forall|c: int| 0 <= c < cs@.len() ==> strictly_ascending(views((#[trigger] cs@[c]).consumers@))
            && cs@[c].id@ == catalog_name(views(cs@[c].consumers@)));
        assert(forall|c: int, d: int| 0 <= c < d < cs@.len() ==> views((#[trigger] cs@[c]).consumers@) != views((#[trigger] cs@[d]).consumers@));
        assert(x == consumed@.len());
    }
    cs
}

/// The names among the first `n` entries of owner table `o` that module
/// `m` owns, in order.
pub open spec fn owned_by(o: Seq<(String, String)>, m: Seq<char>, n: int) -> Seq<Seq<char>>
    decreases n,
{
    if n <= 0 {
        Seq::empty()
    } else {
        let r = owned_by(o, m, n - 1);
        if o[n - 1].1@ == m {
            r.push(o[n - 1].0@)
        } else {
            r
        }
    }
}

/// The assets effect `e` puts on stage or plays: the assets of the nodes of
/// a presented scene the program has, or the played audio.
pub open spec fn effect_media(scenes: Seq<(String, Vec<Node>)>, e: Effect) -> Seq<Seq<char>> {
    match e {
        Effect::Audio { asset, .. } => seq![asset@],
        Effect::StagePresent { scene, .. } => match assoc(scenes, scene@) {
            Some(ns) => node_assets(ns@),
            None => Seq::empty(),
        },
        _ => Seq::empty(),
    }
}

/// The assets the effects of a cue put on stage or play, in order.
pub open spec fn cue_media(scenes: Seq<(String, Vec<Node>)>, effs: Seq<EffectDef>) -> Seq<Seq<char>>
    decreases effs.len(),
{
    if effs.len() == 0 {
        Seq::empty()
    } else {
        cue_media(scenes, effs.drop_last()) + effect_media(scenes, effs.last().effect)
    }
}

/// The entries of a reference recipe that are no fonts.
pub open spec fn recipe_media(assets: Seq<(String, Asset)>, recipe: Seq<String>) -> Set<Seq<char>> {
    Set::new(|a: Seq<char>| exists|j: int| 0 <= j < recipe.len() && (#[trigger] recipe[j])@ == a
        && (assoc(assets, a) matches Some(x) && x.kind != AssetKind::Font))
}

/// The recipe error of cue `cue`: its reference recipe, fonts left out,
/// differs as a set from the assets its effects use.
pub open spec fn recipe_differs(p: Program, recipes: Seq<(String, Vec<String>)>, cue: (String, Cue)) -> bool {
    recipe_media(p.assets@, assoc(recipes, cue.0@).unwrap()@) != cue_media(p.scenes@, cue.1.effects@).to_set()
}

/// The first text of module `m`'s claims `texts` that locale `l` lacks,
/// among the first `n`.
pub open spec fn missing_text(l: (String, Vec<(String, TextDoc)>), m: Seq<char>, texts: Seq<String>, n: int) -> Option<Seq<char>>
    decreases n,
{
    if n <= 0 {
        None
    } else {
        match missing_text(l, m, texts, n - 1) {
            Some(e) => Some(e),
            None => if assoc(l.1@, texts[n - 1]@) is None {
                Some("E_MODULE_TEXT: "@ + l.0@ + " is missing "@ + m + "."@ + texts[n - 1]@)
            } else {
                None
            },
        }
    }
}

/// The first text error of module `m` with claims `texts` over the first
/// `n` locales: none when it claims no text.
pub open spec fn module_text_error(locales: Seq<(String, Vec<(String, TextDoc)>)>, m: Seq<char>, texts: Seq<String>, n: int) -> Option<Seq<char>>
    decreases n,
{
    if n <= 0 || texts.len() == 0 {
        None
    } else {
        match module_text_error(locales, m, texts, n - 1) {
            Some(e) => Some(e),
            None => missing_text(locales[n - 1], m, texts, texts.len() as int),
        }
    }
}

/// The first cue among the first `n` that module `m` owns (among the
/// modules `names`) whose recipe differs.
pub open spec fn module_recipe_error(p: Program, recipes: Seq<(String, Vec<String>)>, names: Seq<Seq<char>>, m: Seq<char>, n: int) -> Option<Seq<char>>
    decreases n,
{
    if n <= 0 {
        None
    } else {
        match module_recipe_error(p, recipes, names, m, n - 1) {
            Some(e) => Some(e),
            None => if owner_of(p.cues@[n - 1].0@, names) == Some(m) && recipe_differs(p, recipes, p.cues@[n - 1]) {
                Some("E_RECIPE: eager reference recipe differs for "@ + p.cues@[n - 1].0@)
            } else {
                None
            },
        }
    }
}

/// The error of module `i`: its first recipe error, else its first text
/// error.
pub open spec fn module_package_error(p: Program, ms: Seq<(String, ModuleClaims)>, recipes: Seq<(String, Vec<String>)>) -> spec_fn(int) -> Option<Seq<char>> {
    |i: int| match module_recipe_error(p, recipes, module_names(ms), ms[i].0@, p.cues@.len() as int) {
        Some(e) => Some(e),
        None => module_text_error(p.locales@, ms[i].0@, ms[i].1.texts@, p.locales@.len() as int),
    }
}

/// `recipe` names exactly the assets that the effects of some cue named
/// `cue` use.
pub open spec fn recipe_of_cue(p: Program, cue: Seq<char>, recipe: Seq<String>) -> bool {
    exists|c: int| 0 <= c < p.cues@.len() && (#[trigger] p.cues@[c]).0@ == cue && names_in(recipe) == cue_media(p.scenes@, p.cues@[c].1.effects@).to_set()
}

/// What one module's packages hold: its functions, its texts, the scenes,
/// cues and choices it owns, each owned cue's activation recipe, the
/// locales of its text packages and the catalogs it consumes.
#[derive(Debug, Clone)]
pub struct ModulePlan {
    pub module: String,
    pub functions: Vec<String>,
    pub texts: Vec<String>,
    pub scenes: Vec<String>,
    pub cues: Vec<String>,
    pub choices: Vec<String>,
    pub recipes: Vec<(String, Vec<String>)>,
    pub locales: Vec<String>,
    pub catalogs: Vec<String>,
}

/// The catalogs among the first `n` whose consumers include module `m`.
pub open spec fn module_catalogs(cs: Seq<CatalogPlan>, m: Seq<char>, n: int) -> Seq<Seq<char>>
    decreases n,
{
    if n <= 0 {
        Seq::empty()
    } else {
        let r = module_catalogs(cs, m, n - 1);
        if names_in(cs[n - 1].consumers@).contains(module_label(m)) {
            r.push(cs[n - 1].id@)
        } else {
            r
        }
    }
}

/// `plan` is the plan of module `ms[i]` under the owner tables `d` and the
/// catalogs `cs`.
pub open spec fn module_planned(p: Program, ms: Seq<(String, ModuleClaims)>, d: DeclarationOwners, cs: Seq<CatalogPlan>, i: int, plan: ModulePlan) -> bool {
    let m = ms[i].0@;
    &&& plan.module@ == m
    &&& views(plan.functions@) == views(ms[i].1.functions@)
    &&& views(plan.texts@) == views(ms[i].1.texts@)
    &&& views(plan.scenes@) == owned_by(d.scene_owners@, m, d.scene_owners@.len() as int)
    &&& views(plan.cues@) == owned_by(d.cue_owners@, m, d.cue_owners@.len() as int)
    &&& views(plan.choices@) == owned_by(d.choice_owners@, m, d.choice_owners@.len() as int)
    &&& plan.recipes@.len() == plan.cues@.len()
    &&& forall|j: int| 0 <= j < plan.recipes@.len() ==> (#[trigger] plan.recipes@[j]).0@ == plan.cues@[j]@
        && recipe_of_cue(p, plan.cues@[j]@, plan.recipes@[j].1@)
    &&& views(plan.locales@) == (if ms[i].1.texts@.len() == 0 { Seq::empty() } else { entry_names(p.locales@) })
    &&& views(plan.catalogs@) == module_catalogs(cs, m, cs.len() as int)
}

/// A release's runtime package plan: the declaration owners, the asset
/// catalogs and each module's packages, in module order.
#[derive(Debug, Clone)]
pub struct RuntimePackages {
    pub owners: DeclarationOwners,
    pub catalogs: Vec<CatalogPlan>,
    pub modules: Vec<ModulePlan>,
}

fn owned_names(o: &Vec<(String, String)>, m: &str) -> (r: Vec<String>)
    ensures
        views(r@) == owned_by(o@, m@, o@.len() as int),
{
    let mut r: Vec<String> = Vec::new();
    let mut k: usize = 0;
    while k < o.len()
        invariant
            k <= o@.len(),
            views(r@) == owned_by(o@, m@, k as int),
        decreases o@.len() - k,
    {
        if str_eq(o[k].1.as_str(), m) {
            let ghost before = r@;
            r.push(o[k].0.clone());
            proof {
                assert(views(r@) =~= views(before).push(o@[k as int].0@));
            }
        }
        k = k + 1;
    }
    r
}

fn push_node_assets(out: &mut Vec<String>, ns: &Vec<Node>)
    ensures
        views(final(out)@) == views(old(out)@) + node_assets(ns@),
{
    let ghost start = views(out@);
    let mut j: usize = 0;
    while j < ns.len()
        invariant
            j <= ns@.len(),
            views(out@) == start + node_assets(ns@.subrange(0, j as int)),
        decreases ns@.len() - j,
    {
        proof {
            assert(ns@.subrange(0, j + 1).drop_last() =~= ns@.subrange(0, j as int));
        }
        match &ns[j].asset {
            Some(a) => {
                let ghost before = out@;
                out.push(a.clone());
                proof {
                    assert(views(out@) =~= views(before).push(a@));
                }
            },
            None => {},
        }
        j = j + 1;
    }
    proof {
        assert(ns@.subrange(0, ns@.len() as int) =~= ns@);
    }
}

fn collect_cue_media(scenes: &Vec<(String, Vec<Node>)>, effs: &Vec<EffectDef>) -> (r: Vec<String>)
    ensures
        views(r@) == cue_media(scenes@, effs@),
{
    let mut r: Vec<String> = Vec::new();
    let mut k: usize = 0;
    while k < effs.len()
        invariant
            k <= effs@.len(),
            views(r@) == cue_media(scenes@, effs@.subrange(0, k as int)),
        decreases effs@.len() - k,
    {
        proof {
            assert(effs@.subrange(0, k + 1).drop_last() =~= effs@.subrange(0, k as int));
            assert(effs@.subrange(0, k + 1).last() == effs@[k as int]);
        }
        match &effs[k].effect {
            Effect::Audio { asset, .. } => {
                let ghost before = r@;
                r.push(asset.clone());
                proof {
                    assert(views(r@) =~= views(before) + seq![asset@]);
                }
            },
            Effect::StagePresent { scene, .. } => {
                match get_entry(scenes, scene.as_str()) {
                    Some(ns) => {
                        push_node_assets(&mut r, ns);
                    },
                    None => {
                        proof {
                            assert(views(r@) =~= views(r@) + Seq::<Seq<char>>::empty());
                        }
                    },
                }
            },
            _ => {
                proof {
                    assert(views(r@) =~= views(r@) + Seq::<Seq<char>>::empty());
                }
            },
        }
        k = k + 1;
    }
    proof {
        assert(effs@.subrange(0, effs@.len() as int) =~= effs@);
    }
    r
}

fn non_font_entries(assets: &Vec<(String, Asset)>, recipe: &Vec<String>) -> (r: Vec<String>)
    ensures
        names_in(r@) == recipe_media(assets@, recipe@),
{
    let mut r: Vec<String> = Vec::new();
    let mut j: usize = 0;
    while j < recipe.len()
        invariant
            j <= recipe@.len(),
            forall|x: Seq<char>| names_in(r@).contains(x) <==> exists|q: int| 0 <= q < j && (#[trigger] recipe@[q])@ == x
                && (assoc(assets@, x) matches Some(y) && y.kind != AssetKind::Font),
        decreases recipe@.len() - j,
    {
        let keep = match get_entry(assets, recipe[j].as_str()) {
            Some(x) => x.kind != AssetKind::Font,
            None => false,
        };
        let ghost before = r@;
        if keep {
            r.push(recipe[j].clone());
        }
        proof {
            assert forall|x: Seq<char>| names_in(r@).contains(x) <==> exists|q: int| 0 <= q < j + 1 && (#[trigger] recipe@[q])@ == x
                && (assoc(assets@, x) matches Some(y) && y.kind != AssetKind::Font) by {
                if names_in(r@).contains(x) {
                    let i = choose|i: int| 0 <= i < r@.len() && (#[trigger] r@[i])@ == x;
                    if i < before.len() {
                        assert(names_in(before).contains(x));
                    } else {
                        assert(recipe@[j as int]@ == x);
                    }
                }
                if exists|q: int| 0 <= q < j + 1 && (#[trigger] recipe@[q])@ == x && (assoc(assets@, x) matches Some(y) && y.kind != AssetKind::Font) {
                    let q = choose|q: int| 0 <= q < j + 1 && (#[trigger] recipe@[q])@ == x && (assoc(assets@, x) matches Some(y) && y.kind != AssetKind::Font);
                    if q < j {
                        assert(names_in(before).contains(x));
                        let i = choose|i: int| 0 <= i < before.len() && (#[trigger] before[i])@ == x;
                        assert(r@[i] == before[i]);
                    } else {
                        assert(r@[before.len() as int]@ == x);
                    }
                }
            }
        }
        j = j + 1;
    }
    proof {
        assert(names_in(r@) =~= recipe_media(assets@, recipe@));
    }
    r
}

fn same_set_as(a: &Vec<String>, b: &Vec<String>) -> (r: bool)
    ensures
        r == (names_in(a@) == views(b@).to_set()),
{
    proof {
        lemma_names_in_set(b@);
    }
    let mut i: usize = 0;
    while i < a.len()
        invariant
            i <= a@.len(),
            forall|q: int| 0 <= q < i ==> names_in(b@).contains((#[trigger] a@[q])@),
        decreases a@.len() - i,
    {
        if !contains_name(b, a[i].as_str()) {
            proof {
                assert(names_in(a@).contains(a@[i as int]@));
            }
            return false;
        }
        i = i + 1;
    }
    let mut k: usize = 0;
    while k < b.len()
        invariant
            k <= b@.len(),
            forall|q: int| 0 <= q < a@.len() ==> names_in(b@).contains((#[trigger] a@[q])@),
            forall|q: int| 0 <= q < k ==> names_in(a@).contains((#[trigger] b@[q])@),
        decreases b@.len() - k,
    {
        if !contains_name(a, b[k].as_str()) {
            proof {
                assert(names_in(b@).contains(b@[k as int]@));
                lemma_names_in_set(b@);
                assert(views(b@).to_set().contains(b@[k as int]@));
                assert(!names_in(a@).contains(b@[k as int]@));
            }
            return false;
        }
        k = k + 1;
    }
    proof {
        assert forall|x: Seq<char>| names_in(a@).contains(x) <==> names_in(b@).contains(x) by {
            if names_in(a@).contains(x) {
                let q = choose|q: int| 0 <= q < a@.len() && (#[trigger] a@[q])@ == x;
            }
            if names_in(b@).contains(x) {
                let q = choose|q: int| 0 <= q < b@.len() && (#[trigger] b@[q])@ == x;
            }
        }
        assert(names_in(a@) =~= names_in(b@));
    }
    true
}

fn check_module_texts(locales: &Vec<(String, Vec<(String, TextDoc)>)>, m: &str, texts: &Vec<String>) -> (r: Result<(), String>)
    ensures
        match module_text_error(locales@, m@, texts@, locales@.len() as int) {
            Some(e) => r matches Err(x) && x@ == e,
            None => r is Ok,
        },
{
    if texts.len() == 0 {
        return Ok(());
    }
    let mut l: usize = 0;
    while l < locales.len()
        invariant
            texts@.len() > 0,
            l <= locales@.len(),
            module_text_error(locales@, m@, texts@, l as int) is None,
        decreases locales@.len() - l,
    {
        let mut t: usize = 0;
        while t < texts.len()
            invariant
                l < locales@.len(),
                texts@.len() > 0,
                module_text_error(locales@, m@, texts@, l as int) is None,
                t <= texts@.len(),
                missing_text(locales@[l as int], m@, texts@, t as int) is None,
            decreases texts@.len() - t,
        {
            if get_entry(&locales[l].1, texts[t].as_str()).is_none() {
                let mut e = concat("E_MODULE_TEXT: ", locales[l].0.as_str());
                e.append(" is missing ");
                e.append(m);
                e.append(".");
                e.append(texts[t].as_str());
                proof {
                    assert(missing_text(locales@[l as int], m@, texts@, t + 1) == Some(e@));
                    lemma_missing_stays(locales@[l as int], m@, texts@, t + 1, texts@.len() as int);
                    assert(module_text_error(locales@, m@, texts@, l + 1) == Some(e@));
                    lemma_text_error_stays(locales@, m@, texts@, l + 1, locales@.len() as int);
                }
                return Err(e);
            }
            t = t + 1;
        }
        l = l + 1;
    }
    Ok(())
}

proof fn lemma_missing_stays(l: (String, Vec<(String, TextDoc)>), m: Seq<char>, texts: Seq<String>, k: int, n: int)
    requires
        0 <= k <= n,
        missing_text(l, m, texts, k) is Some,
    ensures
        missing_text(l, m, texts, n) == missing_text(l, m, texts, k),
    decreases n - k,
{
    if k < n {
        lemma_missing_stays(l, m, texts, k, n - 1);
    }
}

proof fn lemma_text_error_stays(locales: Seq<(String, Vec<(String, TextDoc)>)>, m: Seq<char>, texts: Seq<String>, k: int, n: int)
    requires
        0 <= k <= n,
        module_text_error(locales, m, texts, k) is Some,
    ensures
        module_text_error(locales, m, texts, n) == module_text_error(locales, m, texts, k),
    decreases n - k,
{
    if k < n {
        lemma_text_error_stays(locales, m, texts, k, n - 1);
    }
}

proof fn lemma_recipe_error_stays(p: Program, recipes: Seq<(String, Vec<String>)>, names: Seq<Seq<char>>, m: Seq<char>, k: int, n: int)
    requires
        0 <= k <= n,
        module_recipe_error(p, recipes, names, m, k) is Some,
    ensures
        module_recipe_error(p, recipes, names, m, n) == module_recipe_error(p, recipes, names, m, k),
    decreases n - k,
{
    if k < n {
        lemma_recipe_error_stays(p, recipes, names, m, k, n - 1);
    }
}

fn catalogs_for(cs: &Vec<CatalogPlan>, m: &str) -> (r: Vec<String>)
    ensures
        views(r@) == module_catalogs(cs@, m@, cs@.len() as int),
{
    let label = concat("module:", m);
    let mut r: Vec<String> = Vec::new();
    let mut c: usize = 0;
    while c < cs.len()
        invariant
            c <= cs@.len(),
            label@ == module_label(m@),
            views(r@) == module_catalogs(cs@, m@, c as int),
        decreases cs@.len() - c,
    {
        if contains_name(&cs[c].consumers, label.as_str()) {
            let ghost before = r@;
            r.push(cs[c].id.clone());
            proof {
                assert(views(r@) =~= views(before).push(cs@[c as int].id@));
            }
        }
        c = c + 1;
    }
    r
}

fn plan_module(
    p: &Program,
    modules: &Vec<(String, ModuleClaims)>,
    i: usize,
    d: &DeclarationOwners,
    cs: &Vec<CatalogPlan>,
    recipes: &Vec<(String, Vec<String>)>,
) -> (r: Result<ModulePlan, String>)
    requires
        i < modules@.len(),
        owner_table(d.cue_owners@, entry_names(p.cues@), module_names(modules@)),
        forall|c: int| 0 <= c < p.cues@.len() ==> assoc(recipes@, (#[trigger] p.cues@[c]).0@) is Some,
    ensures
        match module_package_error(*p, modules@, recipes@)(i as int) {
            Some(e) => r matches Err(x) && x@ == e,
            None => r matches Ok(plan) && module_planned(*p, modules@, *d, cs@, i as int, plan),
        },
{
    let ghost names = module_names(modules@);
    let m = modules[i].0.as_str();
    let co = &d.cue_owners;
    let mut cues_v: Vec<String> = Vec::new();
    let mut recs: Vec<(String, Vec<String>)> = Vec::new();
    let mut k: usize = 0;
    while k < p.cues.len()
        invariant
            k <= p.cues@.len(),
            m@ == modules@[i as int].0@,
            names == module_names(modules@),
            owner_table(co@, entry_names(p.cues@), names),
            forall|c: int| 0 <= c < p.cues@.len() ==> assoc(recipes@, (#[trigger] p.cues@[c]).0@) is Some,
            module_recipe_error(*p, recipes@, names, m@, k as int) is None,
            views(cues_v@) == owned_by(co@, m@, k as int),
            recs@.len() == cues_v@.len(),
            forall|j: int| 0 <= j < recs@.len() ==> (#[trigger] recs@[j]).0@ == cues_v@[j]@
                && recipe_of_cue(*p, cues_v@[j]@, recs@[j].1@),
        decreases p.cues@.len() - k,
    {
        proof {
            assert(co@[k as int].0@ == entry_names(p.cues@)[k as int]);
            assert(entry_names(p.cues@)[k as int] == p.cues@[k as int].0@);
            assert(owner_of(p.cues@[k as int].0@, names) == Some(co@[k as int].1@));
        }
        if str_eq(co[k].1.as_str(), m) {
            let cue = &p.cues[k];
            let media = collect_cue_media(&p.scenes, &cue.1.effects);
            let rec = match get_entry(recipes, cue.0.as_str()) {
                Some(x) => x,
                None => {
                    proof {
                        assert(assoc(recipes@, p.cues@[k as int].0@) is Some);
                    }
                    return Err(owned(""));
                },
            };
            let expected = non_font_entries(&p.assets, rec);
            if !same_set_as(&expected, &media) {
                proof {
                    lemma_names_in_set(media@);
                    assert(recipe_differs(*p, recipes@, p.cues@[k as int]));
                    lemma_recipe_error_stays(*p, recipes@, names, m@, k + 1, p.cues@.len() as int);
                }
                return Err(concat("E_RECIPE: eager reference recipe differs for ", cue.0.as_str()));
            }
            let ghost before_c = cues_v@;
            let ghost before_r = recs@;
            cues_v.push(cue.0.clone());
            recs.push((cue.0.clone(), expected));
            proof {
                assert(views(cues_v@) =~= views(before_c).push(co@[k as int].0@));
                assert forall|j: int| 0 <= j < recs@.len() implies (#[trigger] recs@[j]).0@ == cues_v@[j]@
                    && recipe_of_cue(*p, cues_v@[j]@, recs@[j].1@) by {
                    if j < before_r.len() {
                        assert(recs@[j] == before_r[j] && cues_v@[j] == before_c[j]);
                    } else {
                        lemma_names_in_set(media@);
                        assert(p.cues@[k as int].0@ == cues_v@[j]@);
                        assert(names_in(recs@[j].1@) == cue_media(p.scenes@, p.cues@[k as int].1.effects@).to_set());
                    }
                }
            }
        } else {
            proof {
                assert(!recipe_differs(*p, recipes@, p.cues@[k as int]) || owner_of(p.cues@[k as int].0@, names) != Some(m@));
            }
        }
        k = k + 1;
    }
    let texts = &modules[i].1.texts;
    match check_module_texts(&p.locales, m, texts) {
        Ok(()) => {},
        Err(e) => {
            return Err(e);
        },
    }
    let functions = crate::locale::clone_strings(&modules[i].1.functions);
    let texts_v = crate::locale::clone_strings(texts);
    let scenes = owned_names(&d.scene_owners, m);
    let choices = owned_names(&d.choice_owners, m);
    let locales = if texts.len() == 0 {
        Vec::new()
    } else {
        copy_keys(&p.locales)
    };
    proof {
        if texts@.len() == 0 {
            assert(views(locales@) =~= Seq::<Seq<char>>::empty());
        }
    }
    let catalogs = catalogs_for(cs, m);
    Ok(ModulePlan {
        module: modules[i].0.clone(),
        functions,
        texts: texts_v,
        scenes,
        cues: cues_v,
        choices,
        recipes: recs,
        locales,
        catalogs,
    })
}

/// The first error of packaging a program: an ownership error; else the
/// least consumed asset the program does not declare; else the first
/// module's recipe or text error.
pub open spec fn packaging_error(p: Program, ms: Seq<(String, ModuleClaims)>, recipes: Seq<(String, Vec<String>)>) -> Option<Seq<char>> {
    match owners_error(p, ms) {
        Some(e) => Some(e),
        None => match least_undeclared(p, program_uses(p, module_names(ms))) {
            Some(a) => Some("E_ASSET_UNDECLARED: "@ + a),
            None => first_msg(ms.len() as int, module_package_error(p, ms, recipes)),
        },
    }
}

/// `pk` is the package plan of program `p` with modules `ms`: owner tables
/// as the module claims and prefixes give them; catalogs grouping every
/// consumed asset by its set of consumers, each named after that set; and
/// each module's packages.
pub open spec fn packages_planned(p: Program, ms: Seq<(String, ModuleClaims)>, pk: RuntimePackages) -> bool {
    let names = module_names(ms);
    let d = pk.owners;
    let cs = pk.catalogs@;
    let uses = program_uses(p, names);
    &&& pair_views_ok(d.ownership, ms)
    &&& owner_table(d.scene_owners@, entry_names(p.scenes@), names)
    &&& owner_table(d.cue_owners@, entry_names(p.cues@), names)
    &&& owner_table(d.choice_owners@, entry_names(p.choices@), names)
    &&& crate::ownership::keys_distinct(crate::ownership::pair_views(d.task_owners@))
    &&& crate::ownership::owners_agree(crate::ownership::pair_views(d.task_owners@), cue_task_claims(p.cues@, names, p.cues@.len() as int))
    &&& forall|c: int| 0 <= c < cs.len() ==> strictly_ascending(views((#[trigger] cs[c]).consumers@))
        && cs[c].id@ == catalog_name(views(cs[c].consumers@))
    &&& forall|c: int, e: int| 0 <= c < e < cs.len() ==> views((#[trigger] cs[c]).consumers@) != views((#[trigger] cs[e]).consumers@)
    &&& forall|c: int, k: int| 0 <= c < cs.len() && 0 <= k < cs[c].assets@.len() ==> used(uses, (#[trigger] cs[c].assets@[k])@)
        && names_in(cs[c].consumers@) == consumers_of(uses, cs[c].assets@[k]@)
    &&& forall|a: Seq<char>| #[trigger] used(uses, a) ==> exists|c: int, k: int| 0 <= c < cs.len() && 0 <= k < cs[c].assets@.len()
        && (#[trigger] cs[c].assets@[k])@ == a
    &&& pk.modules@.len() == ms.len()
    &&& forall|i: int| 0 <= i < ms.len() ==> module_planned(p, ms, d, cs, i, #[trigger] pk.modules@[i])
}

/// Plans a release's runtime packages: assigns owners to every declaration,
/// refuses consumed assets the program does not declare, groups the
/// consumed assets into catalogs by their consumers, and plans each
/// module's code, static and text packages, checking each owned cue's
/// reference recipe (fonts left out) against the assets its effects use
/// and each locale's translations of the module's texts. The first failure
/// is the error.
pub fn plan_runtime_packages(p: &Program, modules: &Vec<(String, ModuleClaims)>, recipes: &Vec<(String, Vec<String>)>) -> (r: Result<RuntimePackages, String>)
    requires
        forall|c: int| 0 <= c < p.cues@.len() ==> assoc(recipes@, (#[trigger] p.cues@[c]).0@) is Some,
    ensures
        match packaging_error(*p, modules@, recipes@) {
            Some(e) => r matches Err(x) && x@ == e,
            None => r matches Ok(pk) && packages_planned(*p, modules@, pk),
        },
{
    let ghost names = module_names(modules@);
    let ghost uses = program_uses(*p, names);
    let d = declaration_owners(p, modules)?;
    let consumed = asset_consumers(&p.scenes, &p.cues, &p.title_scene, &p.locale_config, &d.scene_owners, &d.cue_owners);
    proof {
        lemma_uses_match(*p, d.scene_owners@, d.cue_owners@, names);
        assert forall|a: Seq<char>| #[trigger] used(uses, a) <==> assoc_keys(consumed@).contains(a) by {}
    }
    let mut best: Option<String> = None;
    let mut x: usize = 0;
    while x < consumed.len()
        invariant
            x <= consumed@.len(),
            forall|a: Seq<char>| #[trigger] used(uses, a) <==> assoc_keys(consumed@).contains(a),
            match best {
                Some(b) => undeclared(*p, uses, b@) && forall|y: int| 0 <= y < x && undeclared(*p, uses, (#[trigger] consumed@[y]).0@)
                    ==> b@ == consumed@[y].0@ || name_less(b@, consumed@[y].0@),
                None => forall|y: int| 0 <= y < x ==> !undeclared(*p, uses, (#[trigger] consumed@[y]).0@),
            },
        decreases consumed@.len() - x,
    {
        let a = &consumed[x].0;
        proof {
            assert(assoc_keys(consumed@).contains(a@));
            assert(used(uses, a@));
        }
        if get_entry(&p.assets, a.as_str()).is_none() {
            let better = match &best {
                Some(b) => less(a.as_str(), b.as_str()),
                None => true,
            };
            if better {
                let ghost old_best = best;
                proof {
                    if let Some(b) = old_best {
                        assert forall|y: int| 0 <= y < x + 1 && undeclared(*p, uses, (#[trigger] consumed@[y]).0@)
                            implies a@ == consumed@[y].0@ || name_less(a@, consumed@[y].0@) by {
                            if y < x {
                                if b@ != consumed@[y].0@ {
                                    lemma_name_order(a@, b@, consumed@[y].0@);
                                }
                            }
                        }
                    }
                }
                best = Some(a.clone());
            } else {
                proof {
                    let ghost gb = best;
                    if let Some(b) = gb {
                        lemma_name_order(b@, a@, a@);
                        if b@ != a@ {
                            lemma_name_order(a@, b@, b@);
                        }
                    }
                }
            }
        }
        x = x + 1;
    }
    match best {
        Some(b) => {
            proof {
                assert forall|c: Seq<char>| #[trigger] undeclared(*p, uses, c) implies c == b@ || name_less(b@, c) by {
                    assert(assoc_keys(consumed@).contains(c));
                    let y = choose|y: int| 0 <= y < consumed@.len() && (#[trigger] consumed@[y]).0@ == c;
                }
                let w = choose|a: Seq<char>| undeclared(*p, uses, a) && forall|c: Seq<char>| #[trigger] undeclared(*p, uses, c) ==> c == a || name_less(a, c);
                assert(undeclared(*p, uses, w));
                if w != b@ {
                    assert(name_less(b@, w));
                    assert(name_less(w, b@));
                    lemma_name_order(b@, w, b@);
                }
            }
            return Err(concat("E_ASSET_UNDECLARED: ", b.as_str()));
        },
        None => {
            proof {
                assert forall|c: Seq<char>| !undeclared(*p, uses, c) by {
                    if undeclared(*p, uses, c) {
                        assert(assoc_keys(consumed@).contains(c));
                        let y = choose|y: int| 0 <= y < consumed@.len() && (#[trigger] consumed@[y]).0@ == c;
                    }
                }
                assert(least_undeclared(*p, uses) is None);
            }
        },
    }
    let catalogs = plan_catalogs(&consumed);
    let ghost f = module_package_error(*p, modules@, recipes@);
    let mut plans: Vec<ModulePlan> = Vec::new();
    let mut i: usize = 0;
    while i < modules.len()
        invariant
            i <= modules@.len(),
            names == module_names(modules@),
            f == module_package_error(*p, modules@, recipes@),
            owner_table(d.cue_owners@, entry_names(p.cues@), names),
            forall|c: int| 0 <= c < p.cues@.len() ==> assoc(recipes@, (#[trigger] p.cues@[c]).0@) is Some,
            first_msg(i as int, f) is None,
            owners_error(*p, modules@) is None,
            uses == program_uses(*p, names),
            least_undeclared(*p, uses) is None,
            plans@.len() == i,
            forall|q: int| 0 <= q < i ==> module_planned(*p, modules@, d, catalogs@, q, #[trigger] plans@[q]),
        decreases modules@.len() - i,
    {
        match plan_module(p, modules, i, &d, &catalogs, recipes) {
            Ok(plan) => {
                plans.push(plan);
            },
            Err(e) => {
                proof {
                    crate::ownership::lemma_first_msg_hit(f, i as int, modules@.len() as int);
                }
                return Err(e);
            },
        }
        i = i + 1;
    }
    proof {
        assert forall|c: int, k: int| 0 <= c < catalogs@.len() && 0 <= k < catalogs@[c].assets@.len() implies used(uses, (#[trigger] catalogs@[c].assets@[k])@)
            && names_in(catalogs@[c].consumers@) == consumers_of(uses, catalogs@[c].assets@[k]@) by {
            assert(asset_backed(consumed@, catalogs@[c], catalogs@[c].assets@[k]));
            let y = choose|y: int| 0 <= y < consumed@.len() && (#[trigger] consumed@[y]).0@ == catalogs@[c].assets@[k]@
                && same_names_set(consumed@[y].1@, catalogs@[c].consumers@);
            assert(assoc_keys(consumed@).contains(consumed@[y].0@));
        }
        assert forall|a: Seq<char>| #[trigger] used(uses, a) implies exists|c: int, k: int| 0 <= c < catalogs@.len() && 0 <= k < catalogs@[c].assets@.len()
            && (#[trigger] catalogs@[c].assets@[k])@ == a by {
            assert(assoc_keys(consumed@).contains(a));
            let y = choose|y: int| 0 <= y < consumed@.len() && (#[trigger] consumed@[y]).0@ == a;
            assert(asset_placed(catalogs@, consumed@[y]));
        }
    }
    Ok(RuntimePackages { owners: d, catalogs, modules: plans })
}

} // verus!
