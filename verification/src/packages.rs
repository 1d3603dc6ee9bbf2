//! Checks of a module's static package against the runtime root that
//! indexes it: recipes, scenes, the title scene, cues and their activation
//! recipes, choices and text contracts.
use crate::assoc::{assoc, assoc_keys, contains_name, get_entry, lemma_assoc_some};
use crate::flow::{or_else, reports};
use crate::format::{value_type, Asset, AssetKind, Choice, ChoiceOption, Cue, Diagnostic, Effect, EffectDef, Node, Property, TextContract, Value, ValueType, MAX_TASKS};
use crate::program::{check_predicate, dialogue_count, predicate_error, stage_count, writes, written_before};
use crate::scene::{f32_finite, f32_negative, f32_unit, scene_error, validate_scene_nodes};
use crate::source::{type_table, typed_vars};
use crate::strings::str_eq;
use crate::table::names_in;
use crate::text::{text_contract_digest, text_contract_identity, DiagText};
use vstd::prelude::*;
use vstd::string::*;

verus! {

/// The static content of one module: its scenes, cues, choices and text
/// contracts, and for each cue the assets its activation needs.
#[derive(Debug, Clone)]
pub struct ModuleStatic {
    pub format: u32,
    pub module: String,
    pub scenes: Vec<(String, Vec<Node>)>,
    pub cues: Vec<(String, Cue)>,
    pub choices: Vec<(String, Choice)>,
    pub text_contracts: Vec<(String, TextContract)>,
    pub activation_recipes: Vec<(String, Vec<String>)>,
}

/// The identity under which the runtime root indexes a text.
#[derive(Debug, Clone)]
pub struct TextIdentity {
    pub module: String,
    pub source_revision: u32,
    pub contract_revision: u32,
    pub meaning_revision: u32,
    pub contract_digest: String,
}

/// What a static package is checked against: the root's owners of scenes
/// and texts, its text identities and asset index, the scenes and text
/// contracts that are loaded, the program's variables, and the title scene
/// with its nodes.
#[derive(Debug, Clone, Copy)]
pub struct PackageScope<'a> {
    pub scene_owners: &'a Vec<(String, String)>,
    pub text_owners: &'a Vec<(String, String)>,
    pub text_identities: &'a Vec<(String, TextIdentity)>,
    pub assets: &'a Vec<(String, Asset)>,
    pub scenes: &'a Vec<(String, Vec<Node>)>,
    pub texts: &'a Vec<(String, TextContract)>,
    pub variables: &'a Vec<(String, Value)>,
    pub title_scene: &'a Option<String>,
    pub title_nodes: &'a Vec<Node>,
}

/// `key` is owned by module `m`.
pub open spec fn owned_by(owners: Seq<(String, String)>, key: Seq<char>, m: Seq<char>) -> bool {
    match assoc(owners, key) {
        Some(o) => o@ == m,
        None => false,
    }
}

fn is_owned_by(owners: &Vec<(String, String)>, key: &str, m: &str) -> (r: bool)
    ensures
        r == owned_by(owners@, key@, m@),
{
    match get_entry(owners, key) {
        Some(o) => str_eq(o.as_str(), m),
        None => false,
    }
}

/// The kind of asset `a` in the index.
pub open spec fn kind_of(assets: Seq<(String, Asset)>, a: Seq<char>) -> Option<AssetKind> {
    match assoc(assets, a) {
        Some(x) => Some(x.kind),
        None => None,
    }
}

fn asset_kind(assets: &Vec<(String, Asset)>, a: &str) -> (r: Option<AssetKind>)
    ensures
        r == kind_of(assets@, a@),
{
    match get_entry(assets, a) {
        Some(x) => Some(x.kind),
        None => None,
    }
}

/// The error of effect `k` of cue `id` in module `m`: a task name used
/// before; a stage of a scene that is not the module's or not loaded; a
/// dialogue whose text or speaker is not the module's or not loaded; audio
/// that is no audio asset; or a clip to a non-finite value, an opacity
/// outside `0.0..=1.0`, a scale below zero, or of a node property an
/// earlier clip writes.
pub open spec fn package_effect_error(s: PackageScope, m: Seq<char>, id: Seq<char>, effs: Seq<EffectDef>, k: int) -> Option<DiagText> {
    let d = effs[k];
    if exists|j: int| 0 <= j < k && (#[trigger] effs[j]).id@ == d.id@ {
        Some(("E_DUPLICATE"@, id, d.id@))
    } else {
        match d.effect {
            Effect::StagePresent { scene, .. } => if !owned_by(s.scene_owners@, scene@, m) || assoc(s.scenes@, scene@) is None {
                Some(("E_SCENE"@, id, scene@))
            } else {
                None
            },
            Effect::Dialogue { text, speaker, .. } => if !owned_by(s.text_owners@, text@, m) || assoc(s.texts@, text@) is None
                || (speaker@.len() > 0 && (!owned_by(s.text_owners@, speaker@, m) || assoc(s.texts@, speaker@) is None)) {
                Some(("E_TEXT"@, id, text@))
            } else {
                None
            },
            Effect::Audio { asset, .. } => if kind_of(s.assets@, asset@) == Some(AssetKind::Audio) {
                None
            } else {
                Some(("E_ASSET_TYPE"@, id, asset@))
            },
            Effect::Clip { node, property, to_bits, .. } => if !f32_finite(to_bits) || (property == Property::Opacity && !f32_unit(to_bits))
                || (property == Property::Scale && f32_negative(to_bits)) || exists|j: int| 0 <= j < k && #[trigger] writes(effs[j].effect, node@, property) {
                Some(("E_VISUAL"@, id, node@))
            } else {
                None
            },
            _ => None,
        }
    }
}

/// The first effect error among the first `k` effects.
pub open spec fn package_effects_error(s: PackageScope, m: Seq<char>, id: Seq<char>, effs: Seq<EffectDef>, k: int) -> Option<DiagText>
    decreases k,
{
    if k <= 0 {
        None
    } else {
        or_else(package_effects_error(s, m, id, effs, k - 1), package_effect_error(s, m, id, effs, k - 1))
    }
}

proof fn lemma_package_effects_stays(s: PackageScope, m: Seq<char>, id: Seq<char>, effs: Seq<EffectDef>, k: int, n: int)
    requires
        0 <= k <= n,
        package_effects_error(s, m, id, effs, k) is Some,
    ensures
        package_effects_error(s, m, id, effs, n) == package_effects_error(s, m, id, effs, k),
    decreases n - k,
{
    if k < n {
        lemma_package_effects_stays(s, m, id, effs, k, n - 1);
    }
}

fn same_property(a: Property, b: Property) -> (r: bool)
    ensures
        r == (a == b),
{
    match (a, b) {
        (Property::X, Property::X) | (Property::Y, Property::Y) | (Property::Scale, Property::Scale) | (Property::Opacity, Property::Opacity) => true,
        _ => false,
    }
}

fn text_known(s: &PackageScope, t: &str, m: &str) -> (r: bool)
    ensures
        r == (owned_by(s.text_owners@, t@, m@) && assoc(s.texts@, t@) is Some),
{
    is_owned_by(s.text_owners, t, m) && get_entry(s.texts, t).is_some()
}

fn check_package_effects(s: &PackageScope, m: &str, id: &str, effs: &Vec<EffectDef>) -> (r: Result<(), Diagnostic>)
    ensures
        reports(r, package_effects_error(*s, m@, id@, effs@, effs@.len() as int)),
{
    let mut names: Vec<String> = Vec::new();
    let mut writers: Vec<(String, Property)> = Vec::new();
    let mut k: usize = 0;
    while k < effs.len()
        invariant
            k <= effs@.len(),
            names@.len() == k,
            forall|j: int| 0 <= j < k ==> (#[trigger] names@[j])@ == effs@[j].id@,
            forall|j: int| 0 <= j < writers@.len() ==> #[trigger] written_before(effs@, k as int, writers@[j]),
            forall|q: int, n: Seq<char>, p: Property| 0 <= q < k && #[trigger] writes(effs@[q].effect, n, p)
                ==> exists|j: int| 0 <= j < writers@.len() && (#[trigger] writers@[j]).0@ == n && writers@[j].1 == p,
            package_effects_error(*s, m@, id@, effs@, k as int) is None,
        decreases effs@.len() - k,
    {
        let e = &effs[k];
        proof {
            assert(effs@[k as int] == *e);
        }
        if contains_name(&names, e.id.as_str()) {
            proof {
                let j = choose|j: int| 0 <= j < names@.len() && (#[trigger] names@[j])@ == e.id@;
                assert(effs@[j].id@ == e.id@);
                lemma_package_effects_stays(*s, m@, id@, effs@, k as int + 1, effs@.len() as int);
            }
            return Err(Diagnostic::new("E_DUPLICATE", id, e.id.as_str()));
        }
        proof {
            assert forall|j: int| 0 <= j < k implies (#[trigger] effs@[j]).id@ != e.id@ by {
                assert(names@[j]@ == effs@[j].id@);
                if effs@[j].id@ == e.id@ {
                    assert(names_in(names@).contains(e.id@));
                }
            }
        }
        match &e.effect {
            Effect::StagePresent { scene, .. } => {
                if !is_owned_by(s.scene_owners, scene.as_str(), m) || get_entry(s.scenes, scene.as_str()).is_none() {
                    proof {
                        lemma_package_effects_stays(*s, m@, id@, effs@, k as int + 1, effs@.len() as int);
                    }
                    return Err(Diagnostic::new("E_SCENE", id, scene.as_str()));
                }
            },
            Effect::Dialogue { text, speaker, .. } => {
                if !text_known(s, text.as_str(), m) || (speaker.as_str().unicode_len() > 0 && !text_known(s, speaker.as_str(), m)) {
                    proof {
                        lemma_package_effects_stays(*s, m@, id@, effs@, k as int + 1, effs@.len() as int);
                    }
                    return Err(Diagnostic::new("E_TEXT", id, text.as_str()));
                }
            },
            Effect::Audio { asset, .. } => {
                let audio = match asset_kind(s.assets, asset.as_str()) {
                    Some(AssetKind::Audio) => true,
                    _ => false,
                };
                if !audio {
                    proof {
                        lemma_package_effects_stays(*s, m@, id@, effs@, k as int + 1, effs@.len() as int);
                    }
                    return Err(Diagnostic::new("E_ASSET_TYPE", id, asset.as_str()));
                }
            },
            Effect::Clip { node, property, to_bits, .. } => {
                let b = *to_bits;
                let finite = b < 0x7f80_0000u32 || (0x8000_0000u32 <= b && b < 0xff80_0000u32);
                let unit = b <= 0x3f80_0000u32 || b == 0x8000_0000u32;
                let negative = 0x8000_0000u32 < b && b <= 0xff80_0000u32;
                let opacity = same_property(*property, Property::Opacity);
                let scale = same_property(*property, Property::Scale);
                let mut w: usize = 0;
                let mut taken = false;
                while w < writers.len()
                    invariant
                        w <= writers@.len(),
                        !taken ==> forall|j: int| 0 <= j < w ==> !((#[trigger] writers@[j]).0@ == node@ && writers@[j].1 == *property),
                        taken ==> exists|j: int| 0 <= j < writers@.len() && (#[trigger] writers@[j]).0@ == node@ && writers@[j].1 == *property,
                    decreases writers@.len() - w,
                {
                    if str_eq(writers[w].0.as_str(), node.as_str()) && same_property(writers[w].1, *property) {
                        taken = true;
                    }
                    w = w + 1;
                }
                if taken {
                    proof {
                        let j = choose|j: int| 0 <= j < writers@.len() && (#[trigger] writers@[j]).0@ == node@ && writers@[j].1 == *property;
                        assert(written_before(effs@, k as int, writers@[j]));
                        let q = choose|q: int| 0 <= q < k && #[trigger] writes(effs@[q].effect, writers@[j].0@, writers@[j].1);
                        assert(writes(effs@[q].effect, node@, *property));
                    }
                }
                if !finite || (opacity && !unit) || (scale && negative) || taken {
                    proof {
                        lemma_package_effects_stays(*s, m@, id@, effs@, k as int + 1, effs@.len() as int);
                    }
                    return Err(Diagnostic::new("E_VISUAL", id, node.as_str()));
                }
                proof {
                    assert forall|q: int| 0 <= q < k implies !#[trigger] writes(effs@[q].effect, node@, *property) by {
                        if writes(effs@[q].effect, node@, *property) {
                            let j = choose|j: int| 0 <= j < writers@.len() && (#[trigger] writers@[j]).0@ == node@ && writers@[j].1 == *property;
                        }
                    }
                }
                let ghost wb = writers@;
                writers.push((node.clone(), *property));
                proof {
                    assert forall|j: int| 0 <= j < writers@.len() implies #[trigger] written_before(effs@, k + 1, writers@[j]) by {
                        if j < wb.len() {
                            assert(writers@[j] == wb[j]);
                            assert(written_before(effs@, k as int, wb[j]));
                            let q = choose|q: int| 0 <= q < k && #[trigger] writes(effs@[q].effect, wb[j].0@, wb[j].1);
                        } else {
                            assert(writes(effs@[k as int].effect, writers@[j].0@, writers@[j].1));
                        }
                    }
                    assert forall|q: int, n: Seq<char>, p: Property| 0 <= q < k + 1 && #[trigger] writes(effs@[q].effect, n, p)
                        implies exists|j: int| 0 <= j < writers@.len() && (#[trigger] writers@[j]).0@ == n && writers@[j].1 == p by {
                        if q < k {
                            let j = choose|j: int| 0 <= j < wb.len() && (#[trigger] wb[j]).0@ == n && wb[j].1 == p;
                            assert(writers@[j] == wb[j]);
                        } else {
                            assert(writers@[wb.len() as int].0@ == n && writers@[wb.len() as int].1 == p);
                        }
                    }
                }
            },
            _ => {},
        }
        proof {
            assert forall|j: int| 0 <= j < writers@.len() implies #[trigger] written_before(effs@, k + 1, writers@[j]) by {
                if !(e.effect is Clip) {
                    assert(written_before(effs@, k as int, writers@[j]));
                    let q = choose|q: int| 0 <= q < k && #[trigger] writes(effs@[q].effect, writers@[j].0@, writers@[j].1);
                }
            }
        }
        names.push(e.id.clone());
        proof {
            assert(package_effects_error(*s, m@, id@, effs@, k as int + 1) is None);
        }
        k = k + 1;
    }
    Ok(())
}

fn count_kinds(effs: &Vec<EffectDef>) -> (r: (usize, usize))
    ensures
        r.0 == stage_count(effs@, effs@.len() as int),
        r.1 == dialogue_count(effs@, effs@.len() as int),
{
    let mut stages: usize = 0;
    let mut dialogues: usize = 0;
    let mut k: usize = 0;
    while k < effs.len()
        invariant
            k <= effs@.len(),
            stages == stage_count(effs@, k as int),
            dialogues == dialogue_count(effs@, k as int),
            stages <= k,
            dialogues <= k,
        decreases effs@.len() - k,
    {
        match &effs[k].effect {
            Effect::StagePresent { .. } => {
                stages = stages + 1;
            },
            Effect::Dialogue { .. } => {
                dialogues = dialogues + 1;
            },
            _ => {},
        }
        k = k + 1;
    }
    (stages, dialogues)
}


/// The first error that `f` finds among the indices below `n`.
pub open spec fn first_of(n: int, f: spec_fn(int) -> Option<DiagText>) -> Option<DiagText>
    decreases n,
{
    if n <= 0 {
        None
    } else {
        or_else(first_of(n - 1, f), f(n - 1))
    }
}

proof fn lemma_first_of_stays(f: spec_fn(int) -> Option<DiagText>, k: int, n: int)
    requires
        0 <= k <= n,
        first_of(k, f) is Some,
    ensures
        first_of(n, f) == first_of(k, f),
    decreases n - k,
{
    if k < n {
        lemma_first_of_stays(f, k, n - 1);
    }
}

/// Index `k` is the first at which `f` finds an error.
pub proof fn lemma_first_of_hit(f: spec_fn(int) -> Option<DiagText>, k: int, n: int)
    requires
        0 <= k < n,
        first_of(k, f) is None,
        f(k) is Some,
    ensures
        first_of(n, f) == f(k),
{
    lemma_first_of_stays(f, k + 1, n);
}

/// The recipes name exactly the cues.
pub open spec fn recipe_set_error(p: ModuleStatic) -> Option<DiagText> {
    if assoc_keys(p.activation_recipes@) == assoc_keys(p.cues@) {
        None
    } else {
        Some(("E_RECIPE"@, p.module@, "activation recipe set differs from cues"@))
    }
}

pub(crate) fn keys_within<A, B>(a: &Vec<(String, A)>, b: &Vec<(String, B)>) -> (r: bool)
    ensures
        r == assoc_keys(a@).subset_of(assoc_keys(b@)),
{
    let mut i: usize = 0;
    while i < a.len()
        invariant
            i <= a@.len(),
            forall|j: int| 0 <= j < i ==> assoc_keys(b@).contains((#[trigger] a@[j]).0@),
        decreases a@.len() - i,
    {
        if get_entry(b, a[i].0.as_str()).is_none() {
            proof {
                lemma_assoc_some(b@, a@[i as int].0@);
                assert(assoc_keys(a@).contains(a@[i as int].0@));
            }
            return false;
        }
        proof {
            lemma_assoc_some(b@, a@[i as int].0@);
        }
        i = i + 1;
    }
    proof {
        assert forall|k: Seq<char>| assoc_keys(a@).contains(k) implies assoc_keys(b@).contains(k) by {
            let j = choose|j: int| 0 <= j < a@.len() && (#[trigger] a@[j]).0@ == k;
            assert(assoc_keys(b@).contains(a@[j].0@));
        }
    }
    true
}

fn check_recipe_set(p: &ModuleStatic) -> (r: Result<(), Diagnostic>)
    ensures
        reports(r, recipe_set_error(*p)),
{
    if keys_within(&p.activation_recipes, &p.cues) && keys_within(&p.cues, &p.activation_recipes) {
        proof {
            assert(assoc_keys(p.activation_recipes@) =~= assoc_keys(p.cues@));
        }
        Ok(())
    } else {
        Err(Diagnostic::new("E_RECIPE", p.module.as_str(), "activation recipe set differs from cues"))
    }
}

/// The scene error of entry `i` of a package's scenes, placed at the scene.
pub open spec fn scene_check(p: ModuleStatic, assets: Seq<(String, Asset)>) -> spec_fn(int) -> Option<DiagText> {
    |i: int| match scene_error(p.scenes@[i].1@, assets) {
        Some(e) => Some((e.0, p.scenes@[i].0@, e.1)),
        None => None,
    }
}

fn check_package_scenes(s: &PackageScope, p: &ModuleStatic) -> (r: Result<(), Diagnostic>)
    ensures
        reports(r, first_of(p.scenes@.len() as int, scene_check(*p, s.assets@))),
{
    let ghost f = scene_check(*p, s.assets@);
    let mut i: usize = 0;
    while i < p.scenes.len()
        invariant
            i <= p.scenes@.len(),
            f == scene_check(*p, s.assets@),
            first_of(i as int, f) is None,
        decreases p.scenes@.len() - i,
    {
        let r = validate_scene_nodes(&p.scenes[i].1, p.scenes[i].0.as_str(), s.assets);
        if r.is_err() {
            proof {
                lemma_first_of_hit(f, i as int, p.scenes@.len() as int);
            }
            return r;
        }
        i = i + 1;
    }
    Ok(())
}

/// A bit pattern that is a NaN.
pub open spec fn f32_nan(b: u32) -> bool {
    (0x7f80_0000 < b && b < 0x8000_0000) || 0xff80_0000 < b
}

/// Two bit patterns whose floats compare equal: neither is a NaN, and they
/// are the same or both are a zero.
pub open spec fn f32_same(a: u32, b: u32) -> bool {
    !f32_nan(a) && !f32_nan(b) && (a == b || ((a == 0 || a == 0x8000_0000) && (b == 0 || b == 0x8000_0000)))
}

fn f32_equal(a: u32, b: u32) -> (r: bool)
    ensures
        r == f32_same(a, b),
{
    let nan_a = (0x7f80_0000u32 < a && a < 0x8000_0000u32) || 0xff80_0000u32 < a;
    let nan_b = (0x7f80_0000u32 < b && b < 0x8000_0000u32) || 0xff80_0000u32 < b;
    !nan_a && !nan_b && (a == b || ((a == 0 || a == 0x8000_0000u32) && (b == 0 || b == 0x8000_0000u32)))
}

/// Two optional strings that are equal.
pub open spec fn same_text(a: Option<String>, b: Option<String>) -> bool {
    match (a, b) {
        (None, None) => true,
        (Some(x), Some(y)) => x@ == y@,
        _ => false,
    }
}

fn text_equal(a: &Option<String>, b: &Option<String>) -> (r: bool)
    ensures
        r == same_text(*a, *b),
{
    match (a, b) {
        (None, None) => true,
        (Some(x), Some(y)) => str_eq(x.as_str(), y.as_str()),
        _ => false,
    }
}

/// Four floats that compare equal place by place.
pub open spec fn same_quad(a: [u32; 4], b: [u32; 4]) -> bool {
    f32_same(a[0], b[0]) && f32_same(a[1], b[1]) && f32_same(a[2], b[2]) && f32_same(a[3], b[3])
}

fn quad_equal(a: &[u32; 4], b: &[u32; 4]) -> (r: bool)
    ensures
        r == same_quad(*a, *b),
{
    f32_equal(a[0], b[0]) && f32_equal(a[1], b[1]) && f32_equal(a[2], b[2]) && f32_equal(a[3], b[3])
}

/// Two nodes that compare equal field by field, their floats as floats.
pub open spec fn same_node(a: Node, b: Node) -> bool {
    &&& a.id@ == b.id@
    &&& same_text(a.parent, b.parent)
    &&& same_text(a.asset, b.asset)
    &&& f32_same(a.x_bits, b.x_bits)
    &&& f32_same(a.y_bits, b.y_bits)
    &&& f32_same(a.width_bits, b.width_bits)
    &&& f32_same(a.height_bits, b.height_bits)
    &&& f32_same(a.scale_bits, b.scale_bits)
    &&& f32_same(a.opacity_bits, b.opacity_bits)
    &&& same_quad(a.color_bits, b.color_bits)
    &&& a.order == b.order
    &&& match (a.clip_bits, b.clip_bits) {
        (None, None) => true,
        (Some(x), Some(y)) => same_quad(x, y),
        _ => false,
    }
}

fn node_equal(a: &Node, b: &Node) -> (r: bool)
    ensures
        r == same_node(*a, *b),
{
    let clips = match (&a.clip_bits, &b.clip_bits) {
        (None, None) => true,
        (Some(x), Some(y)) => quad_equal(x, y),
        _ => false,
    };
    str_eq(a.id.as_str(), b.id.as_str()) && text_equal(&a.parent, &b.parent) && text_equal(&a.asset, &b.asset)
        && f32_equal(a.x_bits, b.x_bits) && f32_equal(a.y_bits, b.y_bits) && f32_equal(a.width_bits, b.width_bits)
        && f32_equal(a.height_bits, b.height_bits) && f32_equal(a.scale_bits, b.scale_bits)
        && f32_equal(a.opacity_bits, b.opacity_bits) && quad_equal(&a.color_bits, &b.color_bits)
        && a.order == b.order && clips
}

/// Two node lists that compare equal element by element.
pub open spec fn same_nodes(a: Seq<Node>, b: Seq<Node>) -> bool {
    a.len() == b.len() && forall|i: int| 0 <= i < a.len() ==> same_node(#[trigger] a[i], b[i])
}

fn nodes_equal(a: &Vec<Node>, b: &Vec<Node>) -> (r: bool)
    ensures
        r == same_nodes(a@, b@),
{
    if a.len() != b.len() {
        return false;
    }
    let mut i: usize = 0;
    while i < a.len()
        invariant
            i <= a@.len(),
            a@.len() == b@.len(),
            forall|j: int| 0 <= j < i ==> same_node(#[trigger] a@[j], b@[j]),
        decreases a@.len() - i,
    {
        if !node_equal(&a[i], &b[i]) {
            return false;
        }
        i = i + 1;
    }
    true
}

/// The package owns the title scene and holds nodes for it other than the
/// root's title nodes.
pub open spec fn title_error(s: PackageScope, p: ModuleStatic) -> Option<DiagText> {
    match *s.title_scene {
        Some(t) => if owned_by(s.scene_owners@, t@, p.module@) && match assoc(p.scenes@, t@) {
            Some(ns) => !same_nodes(ns@, s.title_nodes@),
            None => false,
        } {
            Some(("E_SCENE"@, "title_scene"@, "root title nodes differ from static scene"@))
        } else {
            None
        },
        None => None,
    }
}

fn check_title(s: &PackageScope, p: &ModuleStatic) -> (r: Result<(), Diagnostic>)
    ensures
        reports(r, title_error(*s, *p)),
{
    match s.title_scene {
        Some(t) => {
            if is_owned_by(s.scene_owners, t.as_str(), p.module.as_str()) {
                match get_entry(&p.scenes, t.as_str()) {
                    Some(ns) => {
                        if !nodes_equal(ns, s.title_nodes) {
                            return Err(Diagnostic::new("E_SCENE", "title_scene", "root title nodes differ from static scene"));
                        }
                    },
                    None => {},
                }
            }
            Ok(())
        },
        None => Ok(()),
    }
}


/// The nodes a stage of `scene` shows: the loaded scene's, else the root's
/// title nodes when it is the title scene.
pub open spec fn stage_nodes(s: PackageScope, scene: Seq<char>) -> Option<Seq<Node>> {
    match assoc(s.scenes@, scene) {
        Some(ns) => Some(ns@),
        None => match *s.title_scene {
            Some(t) => if t@ == scene {
                Some(s.title_nodes@)
            } else {
                None
            },
            None => None,
        },
    }
}

fn find_stage_nodes<'a>(s: &PackageScope<'a>, scene: &str) -> (r: Option<&'a Vec<Node>>)
    ensures
        match r {
            Some(ns) => stage_nodes(*s, scene@) == Some(ns@),
            None => stage_nodes(*s, scene@) is None,
        },
{
    match get_entry(s.scenes, scene) {
        Some(ns) => Some(ns),
        None => match s.title_scene {
            Some(t) => if str_eq(t.as_str(), scene) {
                Some(s.title_nodes)
            } else {
                None
            },
            None => None,
        },
    }
}

/// Some node shows asset `a`.
pub open spec fn shows(ns: Seq<Node>, a: Seq<char>) -> bool {
    exists|j: int| 0 <= j < ns.len() && match (#[trigger] ns[j]).asset {
        Some(x) => x@ == a,
        None => false,
    }
}

/// Some node shows an asset the recipe lacks.
pub open spec fn shows_unlisted(ns: Seq<Node>, recipe: Seq<String>) -> bool {
    exists|j: int| 0 <= j < ns.len() && match (#[trigger] ns[j]).asset {
        Some(x) => !names_in(recipe).contains(x@),
        None => false,
    }
}

fn check_shows(ns: &Vec<Node>, a: &str) -> (r: bool)
    ensures
        r == shows(ns@, a@),
{
    let mut j: usize = 0;
    while j < ns.len()
        invariant
            j <= ns@.len(),
            forall|i: int| 0 <= i < j ==> !match (#[trigger] ns@[i]).asset {
                Some(x) => x@ == a@,
                None => false,
            },
        decreases ns@.len() - j,
    {
        match &ns[j].asset {
            Some(x) => {
                if str_eq(x.as_str(), a) {
                    return true;
                }
            },
            None => {},
        }
        j = j + 1;
    }
    false
}

fn check_shows_unlisted(ns: &Vec<Node>, recipe: &Vec<String>) -> (r: bool)
    ensures
        r == shows_unlisted(ns@, recipe@),
{
    let mut j: usize = 0;
    while j < ns.len()
        invariant
            j <= ns@.len(),
            forall|i: int| 0 <= i < j ==> !match (#[trigger] ns@[i]).asset {
                Some(x) => !names_in(recipe@).contains(x@),
                None => false,
            },
        decreases ns@.len() - j,
    {
        match &ns[j].asset {
            Some(x) => {
                if !contains_name(recipe, x.as_str()) {
                    return true;
                }
            },
            None => {},
        }
        j = j + 1;
    }
    false
}

/// The error of effect `e` of cue `id` against its recipe: audio the recipe
/// lacks, or a stage of known nodes that show an asset the recipe lacks.
pub open spec fn consumer_error(s: PackageScope, id: Seq<char>, e: Effect, recipe: Seq<String>) -> Option<DiagText> {
    match e {
        Effect::Audio { asset, .. } => if names_in(recipe).contains(asset@) {
            None
        } else {
            Some(("E_RECIPE"@, id, "audio asset missing from activation recipe"@))
        },
        Effect::StagePresent { scene, .. } => match stage_nodes(s, scene@) {
            Some(ns) => if shows_unlisted(ns, recipe) {
                Some(("E_RECIPE"@, id, "scene image missing from activation recipe"@))
            } else {
                None
            },
            None => None,
        },
        _ => None,
    }
}

/// The consumer error of effect `k`.
pub open spec fn consumer_check(s: PackageScope, id: Seq<char>, effs: Seq<EffectDef>, recipe: Seq<String>) -> spec_fn(int) -> Option<DiagText> {
    |k: int| consumer_error(s, id, effs[k].effect, recipe)
}

/// Effect `e` needs asset `a`: audio of it, or a stage whose known nodes
/// show it.
pub open spec fn consumes_at(s: PackageScope, e: Effect, a: Seq<char>) -> bool {
    match e {
        Effect::Audio { asset, .. } => asset@ == a,
        Effect::StagePresent { scene, .. } => match stage_nodes(s, scene@) {
            Some(ns) => shows(ns, a),
            None => false,
        },
        _ => false,
    }
}

/// Some effect needs asset `a`.
pub open spec fn consumes(s: PackageScope, effs: Seq<EffectDef>, a: Seq<char>) -> bool {
    exists|k: int| 0 <= k < effs.len() && consumes_at(s, (#[trigger] effs[k]).effect, a)
}

/// Every stage shows a scene whose nodes are known.
pub open spec fn stages_known(s: PackageScope, effs: Seq<EffectDef>) -> bool {
    forall|k: int| 0 <= k < effs.len() ==> match (#[trigger] effs[k]).effect {
        Effect::StagePresent { scene, .. } => stage_nodes(s, scene@) is Some,
        _ => true,
    }
}

/// Asset `a` is indexed and is no font.
pub open spec fn runtime_asset(s: PackageScope, a: Seq<char>) -> bool {
    match kind_of(s.assets@, a) {
        Some(k) => k != AssetKind::Font,
        None => false,
    }
}

/// The error of the activation recipe of cue `id`: an asset that is not
/// indexed or is a font; else the first consumer the recipe lacks; else,
/// where every stage's nodes are known, an asset that no effect needs.
pub open spec fn recipe_error(s: PackageScope, id: Seq<char>, effs: Seq<EffectDef>, recipe: Seq<String>) -> Option<DiagText> {
    if exists|j: int| 0 <= j < recipe.len() && !runtime_asset(s, (#[trigger] recipe[j])@) {
        Some(("E_RECIPE"@, id, "recipe references a missing or non-runtime asset"@))
    } else {
        or_else(
            first_of(effs.len() as int, consumer_check(s, id, effs, recipe)),
            if stages_known(s, effs) && exists|j: int| 0 <= j < recipe.len() && !consumes(s, effs, (#[trigger] recipe[j])@) {
                Some(("E_RECIPE"@, id, "activation recipe differs from cue consumers"@))
            } else {
                None
            },
        )
    }
}

fn is_runtime_asset(s: &PackageScope, a: &str) -> (r: bool)
    ensures
        r == runtime_asset(*s, a@),
{
    match asset_kind(s.assets, a) {
        Some(AssetKind::Font) => false,
        Some(_) => true,
        None => false,
    }
}

fn effect_consumes(s: &PackageScope, e: &Effect, a: &str) -> (r: bool)
    ensures
        r == consumes_at(*s, *e, a@),
{
    match e {
        Effect::Audio { asset, .. } => str_eq(asset.as_str(), a),
        Effect::StagePresent { scene, .. } => match find_stage_nodes(s, scene.as_str()) {
            Some(ns) => check_shows(ns, a),
            None => false,
        },
        _ => false,
    }
}

fn check_consumes(s: &PackageScope, effs: &Vec<EffectDef>, a: &str) -> (r: bool)
    ensures
        r == consumes(*s, effs@, a@),
{
    let mut k: usize = 0;
    while k < effs.len()
        invariant
            k <= effs@.len(),
            forall|i: int| 0 <= i < k ==> !consumes_at(*s, (#[trigger] effs@[i]).effect, a@),
        decreases effs@.len() - k,
    {
        if effect_consumes(s, &effs[k].effect, a) {
            return true;
        }
        k = k + 1;
    }
    false
}

fn check_recipe(s: &PackageScope, id: &str, effs: &Vec<EffectDef>, recipe: &Vec<String>) -> (r: Result<(), Diagnostic>)
    ensures
        reports(r, recipe_error(*s, id@, effs@, recipe@)),
{
    let mut j: usize = 0;
    while j < recipe.len()
        invariant
            j <= recipe@.len(),
            forall|i: int| 0 <= i < j ==> runtime_asset(*s, (#[trigger] recipe@[i])@),
        decreases recipe@.len() - j,
    {
        if !is_runtime_asset(s, recipe[j].as_str()) {
            return Err(Diagnostic::new("E_RECIPE", id, "recipe references a missing or non-runtime asset"));
        }
        j = j + 1;
    }
    let ghost f = consumer_check(*s, id@, effs@, recipe@);
    let mut known = true;
    let mut k: usize = 0;
    while k < effs.len()
        invariant
            k <= effs@.len(),
            f == consumer_check(*s, id@, effs@, recipe@),
            first_of(k as int, f) is None,
            forall|i: int| 0 <= i < recipe@.len() ==> runtime_asset(*s, (#[trigger] recipe@[i])@),
            known == forall|i: int| 0 <= i < k ==> match (#[trigger] effs@[i]).effect {
                Effect::StagePresent { scene, .. } => stage_nodes(*s, scene@) is Some,
                _ => true,
            },
        decreases effs@.len() - k,
    {
        proof {
            assert(f(k as int) == consumer_error(*s, id@, effs@[k as int].effect, recipe@));
        }
        match &effs[k].effect {
            Effect::Audio { asset, .. } => {
                if !contains_name(recipe, asset.as_str()) {
                    proof {
                        lemma_first_of_hit(f, k as int, effs@.len() as int);
                    }
                    return Err(Diagnostic::new("E_RECIPE", id, "audio asset missing from activation recipe"));
                }
            },
            Effect::StagePresent { scene, .. } => {
                match find_stage_nodes(s, scene.as_str()) {
                    Some(ns) => {
                        if check_shows_unlisted(ns, recipe) {
                            proof {
                                lemma_first_of_hit(f, k as int, effs@.len() as int);
                            }
                            return Err(Diagnostic::new("E_RECIPE", id, "scene image missing from activation recipe"));
                        }
                    },
                    None => {
                        known = false;
                    },
                }
            },
            _ => {},
        }
        k = k + 1;
    }
    if known {
        let mut j: usize = 0;
        while j < recipe.len()
            invariant
                j <= recipe@.len(),
                forall|i: int| 0 <= i < j ==> consumes(*s, effs@, (#[trigger] recipe@[i])@),
                forall|i: int| 0 <= i < recipe@.len() ==> runtime_asset(*s, (#[trigger] recipe@[i])@),
                f == consumer_check(*s, id@, effs@, recipe@),
                first_of(effs@.len() as int, f) is None,
                stages_known(*s, effs@),
            decreases recipe@.len() - j,
        {
            if !check_consumes(s, effs, recipe[j].as_str()) {
                proof {
                    assert(!consumes(*s, effs@, recipe@[j as int]@));
                }
                return Err(Diagnostic::new("E_RECIPE", id, "activation recipe differs from cue consumers"));
            }
            j = j + 1;
        }
    }
    Ok(())
}


/// The error of cue `id` of the package: no effect or more than
/// `MAX_TASKS`; else the first effect error; else more than one stage or
/// dialogue; else the error of its activation recipe.
pub open spec fn package_cue_error(s: PackageScope, p: ModuleStatic, id: Seq<char>, cue: Cue) -> Option<DiagText> {
    let effs = cue.effects@;
    if effs.len() == 0 || effs.len() > MAX_TASKS {
        Some(("E_LIMIT"@, id, "invalid cue size"@))
    } else {
        or_else(
            package_effects_error(s, p.module@, id, effs, effs.len() as int),
            if stage_count(effs, effs.len() as int) > 1 || dialogue_count(effs, effs.len() as int) > 1 {
                Some(("E_CUE"@, id, "at most one stage and dialogue per cue"@))
            } else {
                match assoc(p.activation_recipes@, id) {
                    Some(recipe) => recipe_error(s, id, effs, recipe@),
                    None => None,
                }
            },
        )
    }
}

/// The error of cue `i` of the package.
pub open spec fn cue_check(s: PackageScope, p: ModuleStatic) -> spec_fn(int) -> Option<DiagText> {
    |i: int| package_cue_error(s, p, p.cues@[i].0@, p.cues@[i].1)
}

fn check_package_cue(s: &PackageScope, p: &ModuleStatic, id: &str, cue: &Cue) -> (r: Result<(), Diagnostic>)
    ensures
        reports(r, package_cue_error(*s, *p, id@, *cue)),
{
    let n = cue.effects.len();
    if n == 0 || n > MAX_TASKS {
        return Err(Diagnostic::new("E_LIMIT", id, "invalid cue size"));
    }
    let r = check_package_effects(s, p.module.as_str(), id, &cue.effects);
    if r.is_err() {
        return r;
    }
    let (stages, dialogues) = count_kinds(&cue.effects);
    if stages > 1 || dialogues > 1 {
        return Err(Diagnostic::new("E_CUE", id, "at most one stage and dialogue per cue"));
    }
    match get_entry(&p.activation_recipes, id) {
        Some(recipe) => check_recipe(s, id, &cue.effects, recipe),
        None => Ok(()),
    }
}

fn check_package_cues(s: &PackageScope, p: &ModuleStatic) -> (r: Result<(), Diagnostic>)
    ensures
        reports(r, first_of(p.cues@.len() as int, cue_check(*s, *p))),
{
    let ghost f = cue_check(*s, *p);
    let mut i: usize = 0;
    while i < p.cues.len()
        invariant
            i <= p.cues@.len(),
            f == cue_check(*s, *p),
            first_of(i as int, f) is None,
        decreases p.cues@.len() - i,
    {
        let r = check_package_cue(s, p, p.cues[i].0.as_str(), &p.cues[i].1);
        if r.is_err() {
            proof {
                lemma_first_of_hit(f, i as int, p.cues@.len() as int);
            }
            return r;
        }
        i = i + 1;
    }
    Ok(())
}

/// The error of option `k` of choice `id` in module `m`: a name used by an
/// earlier option, a text that is not the module's or not loaded, or a
/// predicate that is not `Bool` (the visibility first).
pub open spec fn package_option_error(s: PackageScope, m: Seq<char>, id: Seq<char>, opts: Seq<ChoiceOption>, k: int) -> Option<DiagText> {
    let o = opts[k];
    let vars = typed_vars(s.variables@);
    if exists|j: int| 0 <= j < k && (#[trigger] opts[j]).id@ == o.id@ {
        Some(("E_DUPLICATE"@, id, o.id@))
    } else if !owned_by(s.text_owners@, o.text@, m) || assoc(s.texts@, o.text@) is None {
        Some(("E_TEXT"@, id, o.text@))
    } else {
        or_else(predicate_error(o.visible, vars, id), predicate_error(o.enabled, vars, id))
    }
}

/// The option error of option `k`.
pub open spec fn option_check(s: PackageScope, m: Seq<char>, id: Seq<char>, opts: Seq<ChoiceOption>) -> spec_fn(int) -> Option<DiagText> {
    |k: int| package_option_error(s, m, id, opts, k)
}

/// The error of choice `id` in module `m`: the first option error, or a
/// timeout without a default that names one of its options.
pub open spec fn package_choice_error(s: PackageScope, m: Seq<char>, id: Seq<char>, c: Choice) -> Option<DiagText> {
    or_else(
        first_of(c.options@.len() as int, option_check(s, m, id, c.options@)),
        if c.timeout_us is Some && !(match c.default {
            Some(d) => exists|j: int| 0 <= j < c.options@.len() && (#[trigger] c.options@[j]).id@ == d@,
            None => false,
        }) {
            Some(("E_CHOICE_DEFAULT"@, id, "timeout requires a valid default"@))
        } else {
            None
        },
    )
}

/// The error of choice `i` of the package.
pub open spec fn choice_check(s: PackageScope, p: ModuleStatic) -> spec_fn(int) -> Option<DiagText> {
    |i: int| package_choice_error(s, p.module@, p.choices@[i].0@, p.choices@[i].1)
}

fn check_package_choice(s: &PackageScope, vars: &Vec<(String, ValueType)>, m: &str, id: &str, c: &Choice) -> (r: Result<(), Diagnostic>)
    requires
        vars@ == typed_vars(s.variables@),
    ensures
        reports(r, package_choice_error(*s, m@, id@, *c)),
{
    let ghost f = option_check(*s, m@, id@, c.options@);
    let mut names: Vec<String> = Vec::new();
    let mut k: usize = 0;
    while k < c.options.len()
        invariant
            k <= c.options@.len(),
            vars@ == typed_vars(s.variables@),
            f == option_check(*s, m@, id@, c.options@),
            first_of(k as int, f) is None,
            names@.len() == k,
            forall|j: int| 0 <= j < k ==> (#[trigger] names@[j])@ == c.options@[j].id@,
        decreases c.options@.len() - k,
    {
        let o = &c.options[k];
        proof {
            assert(c.options@[k as int] == *o);
            assert(f(k as int) == package_option_error(*s, m@, id@, c.options@, k as int));
        }
        if contains_name(&names, o.id.as_str()) {
            proof {
                let j = choose|j: int| 0 <= j < names@.len() && (#[trigger] names@[j])@ == o.id@;
                assert(c.options@[j].id@ == o.id@);
                lemma_first_of_hit(f, k as int, c.options@.len() as int);
            }
            return Err(Diagnostic::new("E_DUPLICATE", id, o.id.as_str()));
        }
        proof {
            assert forall|j: int| 0 <= j < k implies (#[trigger] c.options@[j]).id@ != o.id@ by {
                assert(names@[j]@ == c.options@[j].id@);
                if c.options@[j].id@ == o.id@ {
                    assert(names_in(names@).contains(o.id@));
                }
            }
        }
        if !text_known(s, o.text.as_str(), m) {
            proof {
                lemma_first_of_hit(f, k as int, c.options@.len() as int);
            }
            return Err(Diagnostic::new("E_TEXT", id, o.text.as_str()));
        }
        let r = check_predicate(&o.visible, vars, id);
        if r.is_err() {
            proof {
                lemma_first_of_hit(f, k as int, c.options@.len() as int);
            }
            return r;
        }
        let r = check_predicate(&o.enabled, vars, id);
        if r.is_err() {
            proof {
                lemma_first_of_hit(f, k as int, c.options@.len() as int);
            }
            return r;
        }
        names.push(o.id.clone());
        k = k + 1;
    }
    if c.timeout_us.is_some() {
        let ok = match &c.default {
            Some(d) => contains_name(&names, d.as_str()),
            None => false,
        };
        if !ok {
            proof {
                if c.default is Some {
                    let d = c.default.unwrap();
                    assert forall|j: int| 0 <= j < c.options@.len() implies (#[trigger] c.options@[j]).id@ != d@ by {
                        assert(names@[j]@ == c.options@[j].id@);
                    }
                }
            }
            return Err(Diagnostic::new("E_CHOICE_DEFAULT", id, "timeout requires a valid default"));
        }
        proof {
            let d = c.default.unwrap();
            let j = choose|j: int| 0 <= j < names@.len() && (#[trigger] names@[j])@ == d@;
            assert(c.options@[j].id@ == d@);
        }
    }
    Ok(())
}

fn check_package_choices(s: &PackageScope, vars: &Vec<(String, ValueType)>, p: &ModuleStatic) -> (r: Result<(), Diagnostic>)
    requires
        vars@ == typed_vars(s.variables@),
    ensures
        reports(r, first_of(p.choices@.len() as int, choice_check(*s, *p))),
{
    let ghost f = choice_check(*s, *p);
    let mut i: usize = 0;
    while i < p.choices.len()
        invariant
            i <= p.choices@.len(),
            vars@ == typed_vars(s.variables@),
            f == choice_check(*s, *p),
            first_of(i as int, f) is None,
        decreases p.choices@.len() - i,
    {
        let r = check_package_choice(s, vars, p.module.as_str(), p.choices[i].0.as_str(), &p.choices[i].1);
        if r.is_err() {
            proof {
                lemma_first_of_hit(f, i as int, p.choices@.len() as int);
            }
            return r;
        }
        i = i + 1;
    }
    Ok(())
}


/// A parameter of the contract that is no variable, or whose variable has
/// another type.
pub open spec fn param_mismatch(s: PackageScope, c: TextContract) -> bool {
    exists|j: int| 0 <= j < c.params@.len() && match assoc(s.variables@, (#[trigger] c.params@[j]).0@) {
        Some(v) => value_type(v) != c.params@[j].1,
        None => true,
    }
}

/// The error of the package's contract of text `id`: the root indexes no
/// such text; or a revision or the digest differs from the root's identity,
/// the digest is not that of the contract, or a parameter does not match
/// the variables.
pub open spec fn package_contract_error(s: PackageScope, id: Seq<char>, c: TextContract) -> Option<DiagText> {
    match assoc(s.text_identities@, id) {
        None => Some(("E_TEXT_CONTRACT"@, id, "text identity missing"@)),
        Some(t) => if c.source_revision != t.source_revision || c.contract_revision != t.contract_revision
            || c.meaning_revision != t.meaning_revision || c.contract_digest@ != t.contract_digest@
            || c.contract_digest@ != text_contract_identity(c) || param_mismatch(s, c) {
            Some(("E_TEXT_REVISION"@, id, "contract differs from root identity"@))
        } else {
            None
        },
    }
}

/// The error of contract `i` of the package.
pub open spec fn contract_check(s: PackageScope, p: ModuleStatic) -> spec_fn(int) -> Option<DiagText> {
    |i: int| package_contract_error(s, p.text_contracts@[i].0@, p.text_contracts@[i].1)
}

fn params_mismatch(s: &PackageScope, c: &TextContract) -> (r: bool)
    ensures
        r == param_mismatch(*s, *c),
{
    let mut j: usize = 0;
    while j < c.params.len()
        invariant
            j <= c.params@.len(),
            forall|i: int| 0 <= i < j ==> !match assoc(s.variables@, (#[trigger] c.params@[i]).0@) {
                Some(v) => value_type(v) != c.params@[i].1,
                None => true,
            },
        decreases c.params@.len() - j,
    {
        match get_entry(s.variables, c.params[j].0.as_str()) {
            Some(v) => {
                if v.ty() != c.params[j].1 {
                    return true;
                }
            },
            None => {
                return true;
            },
        }
        j = j + 1;
    }
    false
}

fn check_package_contract(s: &PackageScope, id: &str, c: &TextContract) -> (r: Result<(), Diagnostic>)
    ensures
        reports(r, package_contract_error(*s, id@, *c)),
{
    match get_entry(s.text_identities, id) {
        None => Err(Diagnostic::new("E_TEXT_CONTRACT", id, "text identity missing")),
        Some(t) => {
            let digest = text_contract_digest(c);
            if c.source_revision != t.source_revision || c.contract_revision != t.contract_revision
                || c.meaning_revision != t.meaning_revision || !str_eq(c.contract_digest.as_str(), t.contract_digest.as_str())
                || !str_eq(c.contract_digest.as_str(), digest.as_str()) || params_mismatch(s, c) {
                Err(Diagnostic::new("E_TEXT_REVISION", id, "contract differs from root identity"))
            } else {
                Ok(())
            }
        },
    }
}

fn check_package_contracts(s: &PackageScope, p: &ModuleStatic) -> (r: Result<(), Diagnostic>)
    ensures
        reports(r, first_of(p.text_contracts@.len() as int, contract_check(*s, *p))),
{
    let ghost f = contract_check(*s, *p);
    let mut i: usize = 0;
    while i < p.text_contracts.len()
        invariant
            i <= p.text_contracts@.len(),
            f == contract_check(*s, *p),
            first_of(i as int, f) is None,
        decreases p.text_contracts@.len() - i,
    {
        let r = check_package_contract(s, p.text_contracts[i].0.as_str(), &p.text_contracts[i].1);
        if r.is_err() {
            proof {
                lemma_first_of_hit(f, i as int, p.text_contracts@.len() as int);
            }
            return r;
        }
        i = i + 1;
    }
    Ok(())
}

/// The error of a module's static package, checks in this order: the
/// recipes name exactly the cues; every scene is valid; the title scene, if
/// the module owns it, has the root's title nodes; every cue; every choice;
/// every text contract.
pub open spec fn static_package_error(s: PackageScope, p: ModuleStatic) -> Option<DiagText> {
    or_else(recipe_set_error(p),
    or_else(first_of(p.scenes@.len() as int, scene_check(p, s.assets@)),
    or_else(title_error(s, p),
    or_else(first_of(p.cues@.len() as int, cue_check(s, p)),
    or_else(first_of(p.choices@.len() as int, choice_check(s, p)),
    first_of(p.text_contracts@.len() as int, contract_check(s, p)))))))
}

/// Checks a module's static package against the root that indexes it: its
/// activation recipes name exactly its cues; its scenes are valid; the
/// title scene it owns shows the root's title nodes; each cue has one to
/// `MAX_TASKS` effects that pass their checks, at most one stage and one
/// dialogue, and a recipe of indexed non-font assets that holds what its
/// audio and stages need and, where every stage is known, nothing more;
/// each choice has distinct options with the module's loaded texts, `Bool`
/// predicates and a valid default under a timeout; each text contract
/// matches the root's identity, its own digest and the variables. The first
/// failing check is the error.
pub fn validate_static_package(s: &PackageScope, p: &ModuleStatic) -> (r: Result<(), Diagnostic>)
    ensures
        reports(r, static_package_error(*s, *p)),
{
    let r = check_recipe_set(p);
    if r.is_err() {
        return r;
    }
    let r = check_package_scenes(s, p);
    if r.is_err() {
        return r;
    }
    let r = check_title(s, p);
    if r.is_err() {
        return r;
    }
    let r = check_package_cues(s, p);
    if r.is_err() {
        return r;
    }
    let vars = type_table(s.variables);
    let r = check_package_choices(s, &vars, p);
    if r.is_err() {
        return r;
    }
    check_package_contracts(s, p)
}


pub(crate) proof fn lemma_first_of_none(f: spec_fn(int) -> Option<DiagText>, n: int, i: int)
    requires
        0 <= i < n,
        first_of(n, f) is None,
    ensures
        f(i) is None,
    decreases n,
{
    if i < n - 1 {
        lemma_first_of_none(f, n - 1, i);
    }
}

/// In an accepted package every cue has an activation recipe; the recipe
/// holds only indexed assets that are no fonts; it holds every asset that
/// the cue's audio plays or its known stages show; and where every stage
/// of the cue is known, it holds nothing else.
pub proof fn accepted_recipes_match_consumers(s: PackageScope, p: ModuleStatic, i: int, a: Seq<char>)
    requires
        static_package_error(s, p) is None,
        0 <= i < p.cues@.len(),
    ensures
        assoc(p.activation_recipes@, p.cues@[i].0@) matches Some(r) && {
            let effs = p.cues@[i].1.effects@;
            &&& names_in(r@).contains(a) ==> runtime_asset(s, a)
            &&& consumes(s, effs, a) ==> names_in(r@).contains(a)
            &&& stages_known(s, effs) && names_in(r@).contains(a) ==> consumes(s, effs, a)
        },
{
    let id = p.cues@[i].0@;
    let cue = p.cues@[i].1;
    let effs = cue.effects@;
    assert(assoc_keys(p.cues@).contains(id));
    lemma_assoc_some(p.activation_recipes@, id);
    lemma_first_of_none(cue_check(s, p), p.cues@.len() as int, i);
    assert(package_cue_error(s, p, id, cue) is None);
    let r = assoc(p.activation_recipes@, id).unwrap();
    assert(recipe_error(s, id, effs, r@) is None);
    if names_in(r@).contains(a) {
        let j = choose|j: int| 0 <= j < r@.len() && (#[trigger] r@[j])@ == a;
        assert(runtime_asset(s, r@[j]@));
    }
    if consumes(s, effs, a) {
        let k = choose|k: int| 0 <= k < effs.len() && consumes_at(s, (#[trigger] effs[k]).effect, a);
        lemma_first_of_none(consumer_check(s, id, effs, r@), effs.len() as int, k);
        assert(consumer_error(s, id, effs[k].effect, r@) is None);
        match effs[k].effect {
            Effect::StagePresent { scene, .. } => {
                let ns = stage_nodes(s, scene@).unwrap();
                let j = choose|j: int| 0 <= j < ns.len() && match (#[trigger] ns[j]).asset {
                    Some(x) => x@ == a,
                    None => false,
                };
                assert(!shows_unlisted(ns, r@));
                assert(match ns[j].asset {
                    Some(x) => names_in(r@).contains(x@),
                    None => false,
                });
            },
            _ => {},
        }
    }
    if stages_known(s, effs) && names_in(r@).contains(a) {
        let j = choose|j: int| 0 <= j < r@.len() && (#[trigger] r@[j])@ == a;
        assert(consumes(s, effs, r@[j]@));
    }
}

} // verus!
