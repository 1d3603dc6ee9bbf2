use nir::format::{
    Asset, AssetKind, AudioBus, CancelPolicy, Choice, ChoiceOption, Cue, Easing, Effect, EffectDef, FinishPolicy, Micros, Node,
    Property, Scope, TextContract, Value,
    ValueType,
};
use nir::packages::{validate_static_package, ModuleStatic, PackageScope, TextIdentity};
use nir::text::text_contract_digest;

fn node(id: &str, asset: Option<&str>) -> Node {
    Node {
        id: id.to_string(),
        parent: None,
        asset: asset.map(|a| a.to_string()),
        x_bits: 0,
        y_bits: 0,
        width_bits: 0,
        height_bits: 0,
        scale_bits: 1.0f32.to_bits(),
        opacity_bits: 1.0f32.to_bits(),
        color_bits: [1.0f32.to_bits(); 4],
        order: 0,
        clip_bits: None,
    }
}

fn asset(kind: AssetKind) -> Asset {
    Asset { kind, object: "a".repeat(64), bytes: 1, width: 0, height: 0, duration_us: Micros(0), decoded_bytes: 0 }
}

fn contract(params: Vec<(String, ValueType)>) -> TextContract {
    let mut c = TextContract {
        source_revision: 1,
        contract_revision: 1,
        meaning_revision: 1,
        contract_digest: String::new(),
        gates: vec![],
        params,
    };
    c.contract_digest = text_contract_digest(&c);
    c
}

fn identity(c: &TextContract) -> TextIdentity {
    TextIdentity {
        module: "chapter".to_string(),
        source_revision: c.source_revision,
        contract_revision: c.contract_revision,
        meaning_revision: c.meaning_revision,
        contract_digest: c.contract_digest.clone(),
    }
}

fn def(id: &str, effect: Effect) -> EffectDef {
    EffectDef { id: id.to_string(), scope: Scope::Session, effect }
}

fn stage(scene: &str) -> Effect {
    Effect::StagePresent { scene: scene.to_string(), duration_us: Micros(0) }
}

fn audio(a: &str) -> Effect {
    Effect::Audio { asset: a.to_string(), bus: AudioBus::Bgm, looped: true }
}

fn strings(v: &[&str]) -> Vec<String> {
    v.iter().map(|s| s.to_string()).collect()
}

struct Root {
    scene_owners: Vec<(String, String)>,
    text_owners: Vec<(String, String)>,
    text_identities: Vec<(String, TextIdentity)>,
    assets: Vec<(String, Asset)>,
    scenes: Vec<(String, Vec<Node>)>,
    texts: Vec<(String, TextContract)>,
    variables: Vec<(String, Value)>,
    title_scene: Option<String>,
    title_nodes: Vec<Node>,
}

impl Root {
    fn scope(&self) -> PackageScope<'_> {
        PackageScope {
            scene_owners: &self.scene_owners,
            text_owners: &self.text_owners,
            text_identities: &self.text_identities,
            assets: &self.assets,
            scenes: &self.scenes,
            texts: &self.texts,
            variables: &self.variables,
            title_scene: &self.title_scene,
            title_nodes: &self.title_nodes,
        }
    }
}

fn fixture() -> (Root, ModuleStatic) {
    let line = contract(vec![("name".to_string(), ValueType::String)]);
    let garden = vec![node("bg", Some("garden.png"))];
    let root = Root {
        scene_owners: vec![("garden".to_string(), "chapter".to_string()), ("title".to_string(), "chapter".to_string())],
        text_owners: vec![("line".to_string(), "chapter".to_string())],
        text_identities: vec![("line".to_string(), identity(&line))],
        assets: vec![
            ("garden.png".to_string(), asset(AssetKind::Image)),
            ("rain.ogg".to_string(), asset(AssetKind::Audio)),
            ("font.ttf".to_string(), asset(AssetKind::Font)),
        ],
        scenes: vec![("garden".to_string(), garden.clone())],
        texts: vec![("line".to_string(), line.clone())],
        variables: vec![("name".to_string(), Value::String("Ann".to_string())), ("brave".to_string(), Value::Bool(true))],
        title_scene: Some("title".to_string()),
        title_nodes: vec![node("logo", None)],
    };
    let package = ModuleStatic {
        format: 1,
        module: "chapter".to_string(),
        scenes: vec![("garden".to_string(), garden), ("title".to_string(), vec![node("logo", None)])],
        cues: vec![(
            "open".to_string(),
            Cue { effects: vec![def("stage", stage("garden")), def("music", audio("rain.ogg"))] },
        )],
        choices: vec![(
            "ask".to_string(),
            Choice {
                options: vec![ChoiceOption {
                    id: "yes".to_string(),
                    text: "line".to_string(),
                    visible: None,
                    enabled: Some(nir::format::Expr::Var { name: "brave".to_string() }),
                }],
                timeout_us: Some(Micros(5)),
                default: Some("yes".to_string()),
            },
        )],
        text_contracts: vec![("line".to_string(), line)],
        activation_recipes: vec![("open".to_string(), strings(&["garden.png", "rain.ogg"]))],
    };
    (root, package)
}

fn error_of(root: &Root, p: &ModuleStatic) -> (String, String, String) {
    let d = validate_static_package(&root.scope(), p).unwrap_err();
    (d.code, d.location, d.message)
}

fn triple(code: &str, location: &str, message: &str) -> (String, String, String) {
    (code.to_string(), location.to_string(), message.to_string())
}

#[test]
fn consistent_package_is_accepted() {
    let (root, p) = fixture();
    assert!(validate_static_package(&root.scope(), &p).is_ok());
}

#[test]
fn recipe_set_must_name_exactly_the_cues() {
    let (root, mut p) = fixture();
    p.activation_recipes.push(("ghost".to_string(), vec![]));
    assert_eq!(error_of(&root, &p), triple("E_RECIPE", "chapter", "activation recipe set differs from cues"));
}

#[test]
fn owned_title_scene_must_match_root_title_nodes() {
    let (mut root, p) = fixture();
    root.title_nodes = vec![node("other", None)];
    assert_eq!(error_of(&root, &p), triple("E_SCENE", "title_scene", "root title nodes differ from static scene"));
}

#[test]
fn title_nodes_compare_floats_as_floats() {
    let (mut root, p) = fixture();
    root.title_nodes[0].x_bits = (-0.0f32).to_bits();
    assert!(validate_static_package(&root.scope(), &p).is_ok());
    root.title_nodes[0].x_bits = f32::NAN.to_bits();
    assert_eq!(error_of(&root, &p).0, "E_SCENE");
}

#[test]
fn empty_cue_is_a_limit_error() {
    let (root, mut p) = fixture();
    p.cues[0].1.effects.clear();
    assert_eq!(error_of(&root, &p), triple("E_LIMIT", "open", "invalid cue size"));
}

#[test]
fn two_stages_in_one_cue_are_refused() {
    let (root, mut p) = fixture();
    p.cues[0].1.effects.push(def("again", stage("garden")));
    assert_eq!(error_of(&root, &p), triple("E_CUE", "open", "at most one stage and dialogue per cue"));
}

#[test]
fn stage_of_another_modules_scene_is_refused() {
    let (mut root, p) = fixture();
    root.scene_owners[0].1 = "other".to_string();
    assert_eq!(error_of(&root, &p), triple("E_SCENE", "open", "garden"));
}

#[test]
fn recipe_with_a_font_is_refused() {
    let (root, mut p) = fixture();
    p.activation_recipes[0].1.push("font.ttf".to_string());
    assert_eq!(error_of(&root, &p), triple("E_RECIPE", "open", "recipe references a missing or non-runtime asset"));
}

#[test]
fn recipe_must_hold_the_audio() {
    let (root, mut p) = fixture();
    p.activation_recipes[0].1 = strings(&["garden.png"]);
    assert_eq!(error_of(&root, &p), triple("E_RECIPE", "open", "audio asset missing from activation recipe"));
}

#[test]
fn recipe_must_hold_the_scene_images() {
    let (root, mut p) = fixture();
    p.activation_recipes[0].1 = strings(&["rain.ogg"]);
    assert_eq!(error_of(&root, &p), triple("E_RECIPE", "open", "scene image missing from activation recipe"));
}

#[test]
fn recipe_with_an_unused_asset_is_refused_when_every_stage_is_known() {
    let (mut root, mut p) = fixture();
    root.assets.push(("extra.png".to_string(), asset(AssetKind::Image)));
    p.activation_recipes[0].1.push("extra.png".to_string());
    assert_eq!(error_of(&root, &p), triple("E_RECIPE", "open", "activation recipe differs from cue consumers"));
}

#[test]
fn option_text_of_another_module_is_refused() {
    let (mut root, p) = fixture();
    root.text_owners[0].1 = "other".to_string();
    assert_eq!(error_of(&root, &p), triple("E_TEXT", "ask", "line"));
}

#[test]
fn choice_predicate_must_be_bool() {
    let (root, mut p) = fixture();
    p.choices[0].1.options[0].enabled = Some(nir::format::Expr::Var { name: "name".to_string() });
    assert_eq!(error_of(&root, &p), triple("E_TYPE", "ask", "choice predicate must be Bool"));
}

#[test]
fn timeout_needs_a_default_option() {
    let (root, mut p) = fixture();
    p.choices[0].1.default = Some("no".to_string());
    assert_eq!(error_of(&root, &p), triple("E_CHOICE_DEFAULT", "ask", "timeout requires a valid default"));
}

#[test]
fn contract_without_root_identity_is_refused() {
    let (mut root, p) = fixture();
    root.text_identities.clear();
    assert_eq!(error_of(&root, &p), triple("E_TEXT_CONTRACT", "line", "text identity missing"));
}

#[test]
fn contract_must_match_root_identity_and_its_digest() {
    let (mut root, mut p) = fixture();
    root.text_identities[0].1.meaning_revision = 2;
    assert_eq!(error_of(&root, &p), triple("E_TEXT_REVISION", "line", "contract differs from root identity"));
    let (root2, _) = fixture();
    p.text_contracts[0].1.contract_digest = "0".repeat(64);
    assert_eq!(error_of(&root2, &p), triple("E_TEXT_REVISION", "line", "contract differs from root identity"));
}

#[test]
fn contract_parameter_must_match_variable_type() {
    let (mut root, p) = fixture();
    root.variables[0].1 = Value::I32(3);
    assert_eq!(error_of(&root, &p), triple("E_TEXT_REVISION", "line", "contract differs from root identity"));
}

#[test]
fn runtime_static_rejects_invalid_clip_values_and_incomplete_recipes() {
    let (root, mut p) = fixture();
    let clip = def(
        "clip",
        Effect::Clip {
            node: "art".to_string(),
            property: Property::X,
            to_bits: f32::NAN.to_bits(),
            duration_us: Micros(1),
            replace: false,
            easing: Easing::Linear,
            finish: FinishPolicy::CommitEnd,
            cancel: CancelPolicy::CommitCurrent,
        },
    );
    p.cues = vec![("cue".to_string(), Cue { effects: vec![clip] })];
    p.activation_recipes = vec![("cue".to_string(), vec![])];
    assert_eq!(error_of(&root, &p).0, "E_VISUAL");

    let (root, mut p) = fixture();
    p.activation_recipes[0].1 = vec![];
    assert_eq!(error_of(&root, &p).0, "E_RECIPE");
}
