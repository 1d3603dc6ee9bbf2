use nir::format::{AudioBus, Block, Cue, Effect, EffectDef, Function, Micros, Node, Scope, Terminator};
use nir::locale::{LocaleConfig, LocaleFontPlan};
use nir::modules::{asset_consumers, dependency_graph, group_uses, module_paths};

fn names(v: &[&str]) -> Vec<String> {
    v.iter().map(|s| s.to_string()).collect()
}

fn call(target: &str) -> Block {
    Block {
        ops: vec![],
        terminator: Terminator::Call { function: target.to_string(), args: vec![], next: "after".to_string(), result: None },
    }
}

fn end() -> Block {
    Block { ops: vec![], terminator: Terminator::End { outcome: "done".to_string() } }
}

fn function(blocks: Vec<(&str, Block)>) -> Function {
    Function {
        params: vec![],
        locals: vec![],
        returns: None,
        entry: "start".to_string(),
        blocks: blocks.into_iter().map(|(k, b)| (k.to_string(), b)).collect(),
    }
}

fn owners(v: &[(&str, &str)]) -> Vec<(String, String)> {
    v.iter().map(|(a, b)| (a.to_string(), b.to_string())).collect()
}

#[test]
fn module_graph_keeps_cross_module_calls_only() {
    let functions = vec![
        ("main".to_string(), function(vec![("start", call("ch1.run")), ("after", call("helper"))])),
        ("helper".to_string(), function(vec![("start", end())])),
        ("ch1.run".to_string(), function(vec![("start", call("ch2.run"))])),
        ("ch2.run".to_string(), function(vec![("start", call("main"))])),
    ];
    let o = owners(&[("main", "base"), ("helper", "base"), ("ch1.run", "ch1"), ("ch2.run", "ch2")]);
    let modules = names(&["base", "ch1", "ch2", "extra"]);
    let (graph, entry) = dependency_graph(&functions, &o, &modules, "main").unwrap();
    assert_eq!(entry, "base");
    assert_eq!(
        graph,
        vec![
            ("base".to_string(), names(&["ch1"])),
            ("ch1".to_string(), names(&["ch2"])),
            ("ch2".to_string(), names(&["base"])),
            ("extra".to_string(), vec![]),
        ]
    );
}

#[test]
fn unowned_functions_and_entry_are_errors() {
    let functions = vec![("main".to_string(), function(vec![("start", call("lost"))]))];
    let modules = names(&["base"]);
    let r = dependency_graph(&functions, &owners(&[("main", "base")]), &modules, "main");
    assert_eq!(r.unwrap_err(), "E_MODULE_OWNERSHIP: no module owns function lost");
    let r = dependency_graph(&functions, &owners(&[("lost", "base")]), &modules, "main");
    assert_eq!(r.unwrap_err(), "E_MODULE_OWNERSHIP: no module owns function main");
    let ok = vec![("main".to_string(), function(vec![("start", end())]))];
    let r = dependency_graph(&ok, &owners(&[("main", "base")]), &modules, "other");
    assert_eq!(r.unwrap_err(), "E_MODULE_OWNERSHIP: no module owns entry other");
}

#[test]
fn entry_paths_follow_breadth_first_order() {
    let graph = vec![
        ("base".to_string(), names(&["ch1", "ch3"])),
        ("ch1".to_string(), names(&["ch2", "base"])),
        ("ch2".to_string(), names(&["ch3"])),
        ("ch3".to_string(), vec![]),
        ("island".to_string(), names(&["base"])),
    ];
    let paths = module_paths(&graph, "base");
    assert_eq!(
        paths,
        vec![
            ("base".to_string(), "base".to_string()),
            ("ch1".to_string(), "base -> ch1".to_string()),
            ("ch3".to_string(), "base -> ch3".to_string()),
            ("ch2".to_string(), "base -> ch1 -> ch2".to_string()),
        ]
    );
    // A module missing from the graph reaches only itself.
    assert_eq!(module_paths(&graph, "nowhere"), vec![("nowhere".to_string(), "nowhere".to_string())]);
}

fn node(id: &str, asset: Option<&str>) -> Node {
    Node {
        id: id.to_string(),
        parent: None,
        asset: asset.map(|a| a.to_string()),
        x_bits: 0,
        y_bits: 0,
        width_bits: 0,
        height_bits: 0,
        scale_bits: 1.0f32.to_bits(),
        opacity_bits: 1.0f32.to_bits(),
        color_bits: [1.0f32.to_bits(); 4],
        order: 0,
        clip_bits: None,
    }
}

fn plan(locale: &str, fonts: &[&str]) -> (String, LocaleFontPlan) {
    (locale.to_string(), LocaleFontPlan { fonts: names(fonts), digest: String::new() })
}

fn sorted(mut v: Vec<(String, Vec<String>)>) -> Vec<(String, Vec<String>)> {
    for e in v.iter_mut() {
        e.1.sort();
    }
    v.sort();
    v
}

#[test]
fn uses_group_by_asset_without_repeats() {
    let uses = owners(&[("bg", "module:a"), ("rain", "module:a"), ("bg", "bootstrap"), ("bg", "module:a")]);
    assert_eq!(
        group_uses(&uses),
        vec![("bg".to_string(), names(&["module:a", "bootstrap"])), ("rain".to_string(), names(&["module:a"]))]
    );
}

#[test]
fn assets_are_grouped_by_their_consumers() {
    let scenes = vec![
        ("ch1.garden".to_string(), vec![node("bg", Some("garden")), node("text", None)]),
        ("title".to_string(), vec![node("logo", Some("logo")), node("bg", Some("garden"))]),
        ("orphan".to_string(), vec![node("x", Some("unused"))]),
    ];
    let cues = vec![(
        "ch1.rain".to_string(),
        Cue {
            effects: vec![
                EffectDef { id: "stage".to_string(), scope: Scope::Scene, effect: Effect::StagePresent { scene: "ch1.garden".to_string(), duration_us: Micros(0) } },
                EffectDef { id: "music".to_string(), scope: Scope::Session, effect: Effect::Audio { asset: "rain".to_string(), bus: AudioBus::Bgm, looped: true } },
            ],
        },
    )];
    let config = LocaleConfig {
        default_ui: "en".to_string(),
        default_text: "en".to_string(),
        ui: vec![plan("en", &["sans"])],
        text: vec![plan("en", &["serif"]), plan("ja", &["serif", "mincho"])],
    };
    let scene_owners = owners(&[("ch1.garden", "ch1"), ("title", "base")]);
    let cue_owners = owners(&[("ch1.rain", "ch1")]);
    let r = asset_consumers(&scenes, &cues, &Some("title".to_string()), &config, &scene_owners, &cue_owners);
    assert_eq!(
        sorted(r),
        vec![
            ("garden".to_string(), names(&["bootstrap", "module:base", "module:ch1"])),
            ("logo".to_string(), names(&["bootstrap", "module:base"])),
            ("mincho".to_string(), names(&["locale:text:ja"])),
            ("rain".to_string(), names(&["module:ch1"])),
            ("sans".to_string(), names(&["locale:ui:en"])),
            ("serif".to_string(), names(&["locale:text:en", "locale:text:ja"])),
        ]
    );
    // Without a title scene the first scene stands in for it.
    let r = asset_consumers(&scenes, &cues, &None, &config, &scene_owners, &cue_owners);
    let garden = r.iter().find(|(a, _)| a == "garden").unwrap();
    assert!(garden.1.contains(&"bootstrap".to_string()));
    let logo = r.iter().find(|(a, _)| a == "logo").unwrap();
    assert_eq!(logo.1, names(&["module:base"]));
}

#[test]
fn entry_paths_take_the_fewest_edges() {
    let graph = vec![("a".to_string(), names(&["b", "c"])), ("b".to_string(), names(&["c", "d"]))];
    assert_eq!(
        module_paths(&graph, "a"),
        vec![
            ("a".to_string(), "a".to_string()),
            ("b".to_string(), "a -> b".to_string()),
            ("c".to_string(), "a -> c".to_string()),
            ("d".to_string(), "a -> b -> d".to_string()),
        ]
    );
}

#[test]
fn tied_paths_keep_the_first_predecessor() {
    let graph = vec![
        ("a".to_string(), names(&["b", "c"])),
        ("b".to_string(), names(&["c", "d"])),
        ("c".to_string(), names(&["d"])),
    ];
    assert_eq!(
        module_paths(&graph, "a"),
        vec![
            ("a".to_string(), "a".to_string()),
            ("b".to_string(), "a -> b".to_string()),
            ("c".to_string(), "a -> c".to_string()),
            ("d".to_string(), "a -> b -> d".to_string()),
        ]
    );
}
