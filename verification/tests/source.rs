use nir::format::{
    Asset, AssetKind, Block, Diagnostic, ErrorDomain, Expr, Function, Micros, Node, Op, Operation, Span, Stage,
    Terminator, TextContract, TextDoc, Value, ValueType,
};
use nir::locale::{LocaleConfig, LocaleFontPlan};
use nir::source::{compile_program, is_known_capability, source_scope, validate_program, Program};
use nir::text::text_contract_digest;

fn asset(kind: AssetKind, object: &str, bytes: u64) -> Asset {
    Asset { kind, object: object.to_string(), bytes, width: 0, height: 0, duration_us: Micros(0), decoded_bytes: 0 }
}

fn plan(fonts: Vec<&str>, assets: &[(String, Asset)]) -> LocaleFontPlan {
    let fonts: Vec<String> = fonts.into_iter().map(String::from).collect();
    let objects: Vec<(String, String)> = assets.iter().map(|(k, a)| (k.clone(), a.object.clone())).collect();
    let digest = LocaleFontPlan::digest_for(&fonts, &objects);
    LocaleFontPlan { fonts, digest }
}

fn contract() -> TextContract {
    let mut c = TextContract {
        source_revision: 1,
        contract_revision: 1,
        meaning_revision: 1,
        contract_digest: String::new(),
        gates: vec![],
        params: vec![],
    };
    c.contract_digest = text_contract_digest(&c);
    c
}

fn doc(c: &TextContract) -> TextDoc {
    TextDoc {
        source_revision: c.source_revision,
        contract_revision: c.contract_revision,
        contract_digest: c.contract_digest.clone(),
        spans: vec![Span::Text { id: "s1".to_string(), text: "hello".to_string(), emphasis: false }],
    }
}

fn main_function(ops: Vec<Op>) -> Function {
    Function {
        params: vec![],
        locals: vec![("x".to_string(), ValueType::I32)],
        returns: None,
        entry: "start".to_string(),
        blocks: vec![("start".to_string(), Block { ops, terminator: Terminator::End { outcome: "done".to_string() } })],
    }
}

fn program() -> Program {
    let assets = vec![
        ("body".to_string(), asset(AssetKind::Font, "obj-font", 100)),
        ("bgm".to_string(), asset(AssetKind::Audio, "obj-bgm", 100)),
    ];
    let en = plan(vec!["body"], &assets);
    let c = contract();
    Program {
        format: 1,
        game_id: "demo".to_string(),
        revision: "1".to_string(),
        entry: "main".to_string(),
        requires: vec!["control.v1".to_string(), "text.gate.v1".to_string()],
        stage: Stage { width: 1280, height: 720 },
        variables: vec![("flag".to_string(), Value::Bool(false))],
        functions: vec![("main".to_string(), main_function(vec![]))],
        scenes: vec![],
        cues: vec![],
        choices: vec![],
        texts: vec![("hello".to_string(), c.clone())],
        locales: vec![("en".to_string(), vec![("hello".to_string(), doc(&c))])],
        locale_config: LocaleConfig {
            default_ui: "en".to_string(),
            default_text: "en".to_string(),
            ui: vec![("en".to_string(), en.clone())],
            text: vec![("en".to_string(), en)],
        },
        assets,
        default_locale: "en".to_string(),
        title_scene: None,
    }
}

fn check(p: &Program) -> Result<(), Diagnostic> {
    validate_program(p, &source_scope(p))
}

fn failure(p: &Program) -> (String, String, String) {
    let d = check(p).unwrap_err();
    (d.code, d.location, d.message)
}

fn expect(p: &Program, code: &str, at: &str, message: &str) {
    assert_eq!(failure(p), (code.to_string(), at.to_string(), message.to_string()));
}

fn node(id: &str, parent: Option<&str>) -> Node {
    Node {
        id: id.to_string(),
        parent: parent.map(String::from),
        asset: None,
        x_bits: 0,
        y_bits: 0,
        width_bits: 1.0f32.to_bits(),
        height_bits: 1.0f32.to_bits(),
        scale_bits: 1.0f32.to_bits(),
        opacity_bits: 1.0f32.to_bits(),
        color_bits: [0; 4],
        order: 0,
        clip_bits: None,
    }
}

#[test]
fn a_complete_program_passes() {
    assert!(check(&program()).is_ok());
}

#[test]
fn capabilities_are_those_the_engine_has() {
    assert!(is_known_capability("audio.buffer.v1"));
    assert!(!is_known_capability("audio.spatial.v1"));
    let mut p = program();
    p.requires.push("audio.spatial.v1".to_string());
    expect(&p, "E_CAPABILITY", "requires", "audio.spatial.v1");
}

#[test]
fn header_rules() {
    let mut p = program();
    p.format = 2;
    expect(&p, "E_VERSION", "program", "unsupported semantic version");
    let mut p = program();
    p.stage.width = 9000;
    expect(&p, "E_PROGRAM", "program", "invalid game, entry or stage");
    let mut p = program();
    p.entry = "missing".to_string();
    expect(&p, "E_PROGRAM", "program", "invalid game, entry or stage");
    let mut p = program();
    p.functions[0].1.params.push(("n".to_string(), ValueType::I32));
    expect(&p, "E_CALL", "entry", "entry requires arguments");
    let mut p = program();
    p.default_locale = "zh-Hans".to_string();
    expect(&p, "E_LOCALE", "program", "missing default locale");
}

#[test]
fn locale_configuration_matches_the_translations() {
    let mut p = program();
    p.locale_config.default_ui = "fr".to_string();
    expect(&p, "E_LOCALE_CONFIG", "program.locale_config", "invalid defaults or supported locale sets");
    let mut p = program();
    p.locale_config.text.push(("zh-Hans".to_string(), p.locale_config.ui[0].1.clone()));
    expect(&p, "E_LOCALE_CONFIG", "program.locale_config", "invalid defaults or supported locale sets");
}

#[test]
fn font_plans_need_a_valid_digest_and_font_assets() {
    let mut p = program();
    p.locale_config.ui[0].1.digest = "sha256:0".to_string();
    expect(&p, "E_FONT_PLAN", "en", "font plans must be nonempty, unique and have a valid digest");
    let mut p = program();
    p.locale_config.ui[0].1 = plan(vec!["bgm"], &p.assets);
    expect(&p, "E_FONT_PLAN", "ui.en", "unknown font asset bgm");
    let mut p = program();
    p.locale_config.text[0].1 = plan(vec!["body", "body"], &p.assets);
    expect(&p, "E_FONT_PLAN", "en", "font plans must be nonempty, unique and have a valid digest");
}

#[test]
fn every_contract_has_a_matching_translation() {
    let mut p = program();
    p.locales[0].1.clear();
    expect(&p, "E_TRANSLATION", "en", "hello");
    let mut p = program();
    p.texts[0].1.meaning_revision = 0;
    expect(&p, "E_TEXT_REVISION", "hello", "en");
    let mut p = program();
    p.locales[0].1[0].1.source_revision = 7;
    expect(&p, "E_TEXT_REVISION", "hello", "en");
    let mut p = program();
    let extra = doc(&p.texts[0].1);
    p.locales[0].1.push(("stray".to_string(), extra));
    expect(&p, "E_TEXT_CONTRACT", "en", "unexpected text");
    let mut p = program();
    let mut c = contract();
    c.params.push(("score".to_string(), ValueType::I32));
    c.contract_digest = text_contract_digest(&c);
    p.texts[0].1 = c;
    expect(&p, "E_TEXT_PARAM", "hello", "score");
}

#[test]
fn oversized_assets_are_refused() {
    let mut p = program();
    p.assets[1].1.bytes = 16 * 16 * 1024 * 1024 + 1;
    expect(&p, "E_LIMIT", "bgm", "asset too large");
}

#[test]
fn scene_failures_are_content_errors_and_clips_are_not_checked() {
    let mut p = program();
    let mut clipped = node("a", None);
    clipped.clip_bits = Some([f32::NAN.to_bits(), 0, 0, 0]);
    p.scenes.push(("title".to_string(), vec![clipped, node("b", Some("a"))]));
    assert!(check(&p).is_ok());
    p.scenes.push(("loop".to_string(), vec![node("a", Some("b")), node("b", Some("a"))]));
    let d = check(&p).unwrap_err();
    assert_eq!((d.code.as_str(), d.location.as_str(), d.message.as_str()), ("E_SCENE_CYCLE", "loop", "a"));
    let details = d.details.unwrap();
    assert_eq!(details.domain, ErrorDomain::Content);
    assert_eq!(details.operation, "scenes");
}

#[test]
fn functions_are_checked_last() {
    let mut p = program();
    let read = Op {
        id: "o1".to_string(),
        operation: Operation::Assign { target: "x".to_string(), value: Expr::Var { name: "x".to_string() } },
    };
    p.functions[0].1 = main_function(vec![read]);
    expect(&p, "E_UNINITIALIZED", "o1", "x");
}

#[test]
fn compiling_checks_the_program_first() {
    let e = compile_program(program()).unwrap();
    assert_eq!(e.addresses.len(), 1);
    let mut p = program();
    p.format = 2;
    assert_eq!(compile_program(p).unwrap_err().code, "E_VERSION");
}
