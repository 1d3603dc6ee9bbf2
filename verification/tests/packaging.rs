use nir::format::{
    Asset, AssetKind, AudioBus, Block, Cue, Effect, EffectDef, Function, Micros, Node, Scope, Stage, Terminator, TextContract,
    TextDoc, Value, ValueType,
};
use nir::locale::{LocaleConfig, LocaleFontPlan};
use nir::ownership::ModuleClaims;
use nir::packaging::{plan_runtime_packages, sorted_names};
use nir::source::Program;

fn s(x: &str) -> String {
    x.to_string()
}

fn asset(kind: AssetKind, object: &str) -> Asset {
    Asset { kind, object: s(object), bytes: 10, width: 0, height: 0, duration_us: Micros(0), decoded_bytes: 0 }
}

fn node(id: &str, asset: Option<&str>) -> Node {
    Node {
        id: s(id),
        parent: None,
        asset: asset.map(s),
        x_bits: 0,
        y_bits: 0,
        width_bits: 0,
        height_bits: 0,
        scale_bits: 1.0f32.to_bits(),
        opacity_bits: 1.0f32.to_bits(),
        color_bits: [0; 4],
        order: 0,
        clip_bits: None,
    }
}

fn function() -> Function {
    Function {
        params: vec![],
        locals: vec![],
        returns: None,
        entry: s("start"),
        blocks: vec![(s("start"), Block { ops: vec![], terminator: Terminator::End { outcome: s("done") } })],
    }
}

fn contract() -> TextContract {
    TextContract { source_revision: 1, contract_revision: 1, meaning_revision: 1, contract_digest: s("d"), gates: vec![], params: vec![] }
}

fn doc() -> TextDoc {
    TextDoc { source_revision: 1, contract_revision: 1, contract_digest: s("d"), spans: vec![] }
}

fn audio_cue(id: &str, asset: &str) -> (String, Cue) {
    (
        s(id),
        Cue {
            effects: vec![EffectDef {
                id: format!("{id}.play"),
                scope: Scope::Scene,
                effect: Effect::Audio { asset: s(asset), bus: AudioBus::Bgm, looped: false },
            }],
        },
    )
}

fn program() -> Program {
    let plan = LocaleFontPlan { fonts: vec![s("body")], digest: s("x") };
    Program {
        format: 1,
        game_id: s("demo"),
        revision: s("1"),
        entry: s("a.main"),
        requires: vec![],
        stage: Stage { width: 10, height: 10 },
        variables: vec![(s("flag"), Value::Bool(false))],
        functions: vec![(s("a.main"), function()), (s("b.main"), function())],
        scenes: vec![
            (s("a.title"), vec![node("n1", Some("bg")), node("n2", None)]),
            (s("b.hall"), vec![node("n3", Some("bg")), node("n4", Some("hall"))]),
        ],
        cues: vec![audio_cue("a.cue", "bgm"), audio_cue("b.cue", "bgm")],
        choices: vec![],
        texts: vec![(s("a.hello"), contract()), (s("b.bye"), contract())],
        locales: vec![(s("en"), vec![(s("a.hello"), doc()), (s("b.bye"), doc())])],
        locale_config: LocaleConfig { default_ui: s("en"), default_text: s("en"), ui: vec![(s("en"), plan.clone())], text: vec![(s("en"), plan)] },
        assets: vec![
            (s("bg"), asset(AssetKind::Image, "o1")),
            (s("hall"), asset(AssetKind::Image, "o2")),
            (s("bgm"), asset(AssetKind::Audio, "o3")),
            (s("body"), asset(AssetKind::Font, "o4")),
        ],
        default_locale: s("en"),
        title_scene: Some(s("a.title")),
    }
}

fn modules() -> Vec<(String, ModuleClaims)> {
    vec![
        (s("a"), ModuleClaims { functions: vec![s("a.main")], texts: vec![s("a.hello")] }),
        (s("b"), ModuleClaims { functions: vec![s("b.main")], texts: vec![s("b.bye")] }),
    ]
}

fn recipes() -> Vec<(String, Vec<String>)> {
    vec![(s("a.cue"), vec![s("bgm"), s("body")]), (s("b.cue"), vec![s("bgm")])]
}

#[test]
fn names_sort_once_each() {
    assert_eq!(sorted_names(&vec![s("b"), s("a"), s("b"), s("c")]), vec![s("a"), s("b"), s("c")]);
}

#[test]
fn packages_split_by_module_and_group_assets_by_consumers() {
    let pk = plan_runtime_packages(&program(), &modules(), &recipes()).unwrap();
    assert_eq!(pk.owners.scene_owners, vec![(s("a.title"), s("a")), (s("b.hall"), s("b"))]);
    assert_eq!(pk.owners.task_owners, vec![(s("a.cue.play"), s("a")), (s("b.cue.play"), s("b"))]);
    let a = &pk.modules[0];
    assert_eq!(a.functions, vec![s("a.main")]);
    assert_eq!(a.scenes, vec![s("a.title")]);
    assert_eq!(a.cues, vec![s("a.cue")]);
    assert_eq!(a.recipes, vec![(s("a.cue"), vec![s("bgm")])]);
    assert_eq!(a.locales, vec![s("en")]);
    // bg: a (scene), b (scene), bootstrap; hall: b; bgm: a, b; body: both locale plans.
    let mut groups: Vec<(Vec<String>, Vec<String>)> = pk.catalogs.iter().map(|c| (c.consumers.clone(), c.assets.clone())).collect();
    groups.sort();
    assert_eq!(
        groups,
        vec![
            (vec![s("bootstrap"), s("module:a"), s("module:b")], vec![s("bg")]),
            (vec![s("locale:text:en"), s("locale:ui:en")], vec![s("body")]),
            (vec![s("module:a"), s("module:b")], vec![s("bgm")]),
            (vec![s("module:b")], vec![s("hall")]),
        ]
    );
    for c in &pk.catalogs {
        assert!(c.id.starts_with("catalog.") && c.id.len() == "catalog.".len() + 64);
    }
    assert_eq!(pk.modules[1].catalogs.len(), 3);
    assert_eq!(pk.modules[0].catalogs.len(), 2);
}

#[test]
fn packaging_errors_come_in_order() {
    let mut p = program();
    p.cues[1].0 = s("c.cue");
    assert_eq!(plan_runtime_packages(&p, &modules(), &vec![(s("a.cue"), vec![]), (s("c.cue"), vec![])]).unwrap_err(), "E_MODULE_OWNERSHIP: no module owns c.cue");
    let mut p = program();
    p.scenes[1].1[1].asset = Some(s("zz"));
    p.scenes[0].1[1].asset = Some(s("yy"));
    assert_eq!(plan_runtime_packages(&p, &modules(), &recipes()).unwrap_err(), "E_ASSET_UNDECLARED: yy");
    let r = vec![(s("a.cue"), vec![s("bgm"), s("hall")]), (s("b.cue"), vec![s("bgm")])];
    assert_eq!(plan_runtime_packages(&program(), &modules(), &r).unwrap_err(), "E_RECIPE: eager reference recipe differs for a.cue");
    let mut p = program();
    p.locales[0].1.remove(1);
    assert_eq!(plan_runtime_packages(&p, &modules(), &recipes()).unwrap_err(), "E_MODULE_TEXT: en is missing b.b.bye");
    let mut m = modules();
    m[1].1.functions.clear();
    assert!(plan_runtime_packages(&program(), &m, &recipes()).unwrap_err().starts_with("E_MODULE: "));
}
