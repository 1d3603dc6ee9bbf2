use nir::executable::{compile, validate_executable, ProgramTables};
use nir::format::{
    Asset, AssetKind, AudioBus, Block, Cue, Effect, EffectDef, Expr, Function, Micros, Node, Op, Operation, Scope,
    Span, Terminator, TextContract, TextDoc, Value, ValueType, WaitCondition, Milestone, Stage,
};
use nir::locale::{LocaleConfig, LocaleFontPlan};
use nir::source::{source_scope, validate_program, Program};
use nir::text::text_contract_digest;
use nir::texts::{text_review, text_update, AuthorTextContract, AuthorTextDoc, LocaleBundle, RevisionError, TextRevisions, TextSources};

fn scene_node(id: &str, asset: Option<&str>) -> Node {
    Node {
        id: id.to_string(),
        parent: None,
        asset: asset.map(|a| a.to_string()),
        x_bits: 0,
        y_bits: 0,
        width_bits: 0,
        height_bits: 0,
        scale_bits: 1.0f32.to_bits(),
        opacity_bits: 1.0f32.to_bits(),
        color_bits: [1.0f32.to_bits(); 4],
        order: 0,
        clip_bits: None,
    }
}

fn assign(id: &str) -> Op {
    Op { id: id.to_string(), operation: Operation::Assign { target: "x".to_string(), value: Expr::Const { value: Value::I32(1) } } }
}

fn block(ops: Vec<Op>, next: &str) -> Block {
    Block { ops, terminator: Terminator::Goto { target: next.to_string() } }
}

fn tables() -> ProgramTables {
    let main = Function {
        params: vec![],
        locals: vec![],
        returns: None,
        entry: "a".to_string(),
        blocks: vec![
            ("a".to_string(), block(vec![assign("op1"), assign("op2")], "b")),
            ("b".to_string(), Block { ops: vec![], terminator: Terminator::End { outcome: "done".to_string() } }),
        ],
    };
    let cue = Cue {
        effects: vec![
            EffectDef { id: "stage".to_string(), scope: Scope::Scene, effect: Effect::StagePresent { scene: "garden".to_string(), duration_us: Micros(0) } },
            EffectDef { id: "music".to_string(), scope: Scope::Session, effect: Effect::Audio { asset: "rain".to_string(), bus: AudioBus::Bgm, looped: true } },
        ],
    };
    let font = Asset { kind: AssetKind::Font, object: "f".to_string(), bytes: 1, width: 0, height: 0, duration_us: Micros(0), decoded_bytes: 0 };
    ProgramTables {
        functions: vec![("main".to_string(), main)],
        scenes: vec![("garden".to_string(), vec![scene_node("bg", Some("garden.png")), scene_node("frame", None), scene_node("fg", Some("garden.png"))])],
        cues: vec![("open".to_string(), cue)],
        assets: vec![("ui-font".to_string(), font)],
    }
}


#[test]
fn runtime_rejects_missing_or_rewritten_index_and_recipe() {
    let original = compile(tables()).unwrap();
    assert!(validate_executable(&original).is_ok());
    let mut e = original.clone();
    e.addresses[0].stable_id = "wrong".into();
    assert!(validate_executable(&e).is_err());
    let mut e = original.clone();
    e.activation_recipes.clear();
    assert!(validate_executable(&e).is_err());
    let mut e = original;
    e.addresses.pop();
    assert!(validate_executable(&e).is_err());
}

fn text(id: &str, t: &str) -> Span {
    Span::Text { id: id.to_string(), text: t.to_string(), emphasis: false }
}

fn gate(id: &str) -> Span {
    Span::Gate { id: id.to_string() }
}

fn param(id: &str) -> Span {
    Span::Param { id: id.to_string(), name: id.to_string() }
}

fn sources() -> TextSources {
    let doc = |t: &str| AuthorTextDoc { source_revision: 1, contract_revision: 1, spans: vec![text("a", t)] };
    TextSources {
        module_id: "main".to_string(),
        namespaced: false,
        source: "zh-Hans".to_string(),
        contract_file: "content/main/texts/contracts.json".to_string(),
        contracts: vec![(
            "intro".to_string(),
            AuthorTextContract { source_revision: 1, contract_revision: 1, meaning_revision: 1, gates: vec![], params: vec![] },
        )],
        bundles: vec![
            ("en".to_string(), LocaleBundle { file: "content/main/texts/en.json".to_string(), docs: vec![("intro".to_string(), doc("The rain stopped."))] }),
            ("zh-Hans".to_string(), LocaleBundle { file: "content/main/texts/zh-Hans.json".to_string(), docs: vec![("intro".to_string(), doc("雨停了。"))] }),
        ],
        ledger: TextRevisions { format: 1, source_locale: "zh-Hans".to_string(), texts: vec![] },
    }
}

fn digests(texts: &[(&str, &str, &str)]) -> Vec<(String, Vec<(String, String)>)> {
    vec![
        ("zh-Hans".to_string(), texts.iter().map(|(id, s, _)| (id.to_string(), s.to_string())).collect()),
        ("en".to_string(), texts.iter().map(|(id, _, e)| (id.to_string(), e.to_string())).collect()),
    ]
}

fn codes(s: &TextSources, d: &Vec<(String, Vec<(String, String)>)>) -> Vec<String> {
    s.report(d).issues.into_iter().map(|i| i.code).collect()
}

fn swap_spans(s: &mut TextSources, locale: &str, id: &str, i: usize, j: usize) {
    let b = s.bundles.iter_mut().find(|(l, _)| l == locale).unwrap();
    b.1.docs.iter_mut().find(|(k, _)| k == id).unwrap().1.spans.swap(i, j);
}

fn push_spans(s: &mut TextSources, locale: &str, id: &str, more: Vec<Span>) {
    let b = s.bundles.iter_mut().find(|(l, _)| l == locale).unwrap();
    b.1.docs.iter_mut().find(|(k, _)| k == id).unwrap().1.spans.extend(more);
}

fn review_ok(s: &mut TextSources, id: &str, d: &Vec<(String, Vec<(String, String)>)>, en: &str) {
    text_review(s, id, "en", d).unwrap();
    assert!(s.record_review(id, "en", en));
}

#[test]
fn semantic_contract_changes_force_bump_and_reject_gate_and_parameter_mismatch() {
    let mut s = sources();
    text_update(&mut s, "intro", false, "src1", "shape1").unwrap();
    let d = digests(&[("intro", "src1", "en1")]);
    review_ok(&mut s, "intro", &d, "en1");
    assert!(s.report(&d).ready);
    s.contracts[0].1.gates = vec!["one".to_string(), "two".to_string()];
    push_spans(&mut s, "zh-Hans", "intro", vec![gate("one"), gate("two")]);
    match text_update(&mut s, "intro", false, "src2", "shape2") {
        Err(RevisionError::Refused(m)) => assert!(m.contains("E_TEXT_MEANING")),
        other => panic!("{:?}", other),
    }
    text_update(&mut s, "intro", true, "src2", "shape2").unwrap();
    assert_eq!(s.contracts[0].1.meaning_revision, 2);
    let d = digests(&[("intro", "src2", "en1")]);
    match text_review(&mut s, "intro", "en", &d) {
        Err(RevisionError::Spans(x)) => assert_eq!(x.code, "E_GATE"),
        other => panic!("{:?}", other),
    }
    push_spans(&mut s, "en", "intro", vec![gate("two"), gate("one")]);
    assert!(text_review(&mut s, "intro", "en", &d).is_err());
    swap_spans(&mut s, "en", "intro", 1, 2);
    let d = digests(&[("intro", "src2", "en2")]);
    review_ok(&mut s, "intro", &d, "en2");
    assert!(s.report(&d).ready);
    s.contracts[0].1.params = vec![("name".to_string(), ValueType::String)];
    assert!(text_update(&mut s, "intro", true, "src2", "shape3").is_err());
    push_spans(&mut s, "zh-Hans", "intro", vec![param("name")]);
    text_update(&mut s, "intro", true, "src3", "shape3").unwrap();
    let d = digests(&[("intro", "src3", "en2")]);
    assert!(text_review(&mut s, "intro", "en", &d).is_err());
    push_spans(&mut s, "en", "intro", vec![param("name")]);
    let d = digests(&[("intro", "src3", "en3")]);
    review_ok(&mut s, "intro", &d, "en3");
    // A type change invalidates the review even when span names and gate order stay.
    s.contracts[0].1.params = vec![("name".to_string(), ValueType::I32)];
    assert!(text_update(&mut s, "intro", false, "src3", "shape4").is_err());
    text_update(&mut s, "intro", true, "src3", "shape4").unwrap();
    assert!(codes(&s, &d).contains(&"E_TRANSLATION_STALE".to_string()));
}

#[test]
fn report_collects_missing_extra_and_unknown_fields_fail_closed() {
    let mut s = sources();
    text_update(&mut s, "intro", false, "src1", "shape").unwrap();
    let extra = s.bundles[1].1.docs[0].1.clone();
    s.bundles[0].1.docs = vec![("extra".to_string(), extra)];
    let status = s.report(&digests(&[("intro", "src1", "en1")]));
    assert!(!status.ready);
    let codes: Vec<String> = status.issues.iter().map(|i| i.code.clone()).collect();
    assert!(codes.contains(&"E_TRANSLATION_MISSING".to_string()));
    assert!(codes.contains(&"E_TEXT_CONTRACT".to_string()));
}

#[test]
fn new_text_and_explicit_meaning_bump_without_byte_changes() {
    let mut s = sources();
    text_update(&mut s, "intro", false, "src1", "shape").unwrap();
    let d = digests(&[("intro", "src1", "en1"), ("new", "src1", "en1")]);
    review_ok(&mut s, "intro", &d, "en1");
    s.contracts.push((
        "new".to_string(),
        AuthorTextContract { source_revision: 1, contract_revision: 1, meaning_revision: 1, gates: vec![], params: vec![] },
    ));
    for b in s.bundles.iter_mut() {
        let copy = b.1.docs[0].1.clone();
        b.1.docs.push(("new".to_string(), copy));
    }
    text_update(&mut s, "new", false, "src1", "shape").unwrap();
    assert!(!s.report(&d).ready);
    review_ok(&mut s, "new", &d, "en1");
    assert!(s.report(&d).ready);
    text_update(&mut s, "new", true, "src1", "shape").unwrap();
    assert_eq!(s.contracts[1].1.meaning_revision, 2);
    assert!(!s.report(&d).ready);
    assert!(text_update(&mut s, "absent", true, "x", "y").is_err());
    assert!(text_review(&mut s, "new", "zh-Hans", &d).is_err());
    assert!(text_review(&mut s, "new", "unknown", &d).is_err());
}

fn contract(gates: Vec<&str>) -> TextContract {
    let mut c = TextContract {
        source_revision: 1,
        contract_revision: 1,
        meaning_revision: 1,
        contract_digest: String::new(),
        gates: gates.into_iter().map(String::from).collect(),
        params: vec![],
    };
    c.contract_digest = text_contract_digest(&c);
    c
}

fn program(c: TextContract, spans: Vec<Span>) -> Program {
    let font = Asset { kind: AssetKind::Font, object: "obj-font".to_string(), bytes: 10, width: 0, height: 0, duration_us: Micros(0), decoded_bytes: 0 };
    let assets = vec![("body".to_string(), font)];
    let fonts = vec!["body".to_string()];
    let objects = vec![("body".to_string(), "obj-font".to_string())];
    let plan = LocaleFontPlan { digest: LocaleFontPlan::digest_for(&fonts, &objects), fonts };
    let doc = TextDoc { source_revision: c.source_revision, contract_revision: c.contract_revision, contract_digest: c.contract_digest.clone(), spans };
    let main = Function {
        params: vec![],
        locals: vec![],
        returns: None,
        entry: "start".to_string(),
        blocks: vec![("start".to_string(), Block { ops: vec![], terminator: Terminator::End { outcome: "done".to_string() } })],
    };
    Program {
        format: 1,
        game_id: "rain".to_string(),
        revision: "1".to_string(),
        entry: "main".to_string(),
        requires: vec![],
        stage: Stage { width: 1280, height: 720 },
        variables: vec![("affection".to_string(), Value::I32(0))],
        functions: vec![("main".to_string(), main)],
        scenes: vec![],
        cues: vec![],
        choices: vec![],
        texts: vec![("letter".to_string(), c)],
        locales: vec![("en".to_string(), vec![("letter".to_string(), doc)])],
        locale_config: LocaleConfig {
            default_ui: "en".to_string(),
            default_text: "en".to_string(),
            ui: vec![("en".to_string(), plan.clone())],
            text: vec![("en".to_string(), plan)],
        },
        assets,
        default_locale: "en".to_string(),
        title_scene: None,
    }
}

fn code(p: &Program) -> String {
    validate_program(p, &source_scope(p)).unwrap_err().code
}

#[test]
fn runtime_rechecks_digests_and_semantic_read_identity_survives_copy_edits() {
    let original = program(contract(vec![]), vec![text("a", "Dear reader.")]);
    assert!(validate_program(&original, &source_scope(&original)).is_ok());
    let mut tampered = original.clone();
    tampered.texts[0].1.meaning_revision += 1;
    assert_eq!(code(&tampered), "E_TEXT_REVISION");
    let mut tampered = original.clone();
    tampered.locales[0].1[0].1.contract_digest = "0".repeat(64);
    assert_eq!(code(&tampered), "E_TEXT_REVISION");
    let mut copy_edit = original.texts[0].1.clone();
    copy_edit.source_revision = 2;
    assert_eq!(text_contract_digest(&copy_edit), original.texts[0].1.contract_digest);
    let mut bump = original.texts[0].1.clone();
    bump.meaning_revision = 2;
    assert_ne!(text_contract_digest(&bump), original.texts[0].1.contract_digest);
}

#[test]
fn missing_gate_is_validation_error() {
    let p = program(contract(vec!["g1"]), vec![text("a", "Dear reader."), gate("g1")]);
    assert!(validate_program(&p, &source_scope(&p)).is_ok());
    let mut p = p;
    p.locales[0].1[0].1.spans.retain(|s| !matches!(s, Span::Gate { .. }));
    assert_eq!(code(&p), "E_GATE");
}

#[test]
fn infinite_bgm_wait_rejected() {
    let mut p = program(contract(vec![]), vec![text("a", "Dear reader.")]);
    p.assets.push((
        "rain".to_string(),
        Asset { kind: AssetKind::Audio, object: "obj-rain".to_string(), bytes: 10, width: 0, height: 0, duration_us: Micros(1), decoded_bytes: 1 },
    ));
    p.cues.push((
        "intro".to_string(),
        Cue { effects: vec![EffectDef { id: "music".to_string(), scope: Scope::Session, effect: Effect::Audio { asset: "rain".to_string(), bus: AudioBus::Bgm, looped: true } }] },
    ));
    let f = &mut p.functions[0].1;
    f.blocks = vec![
        ("start".to_string(), Block { ops: vec![], terminator: Terminator::Activate { cue: "intro".to_string(), next: "wait_intro".to_string() } }),
        ("wait_intro".to_string(), Block {
            ops: vec![],
            terminator: Terminator::Await {
                conditions: vec![WaitCondition { task: "music".to_string(), milestone: Milestone::Started }],
                next: "enter".to_string(),
                on_cancelled: "enter".to_string(),
                on_failed: "enter".to_string(),
            },
        }),
        ("enter".to_string(), Block { ops: vec![], terminator: Terminator::End { outcome: "done".to_string() } }),
    ];
    assert!(validate_program(&p, &source_scope(&p)).is_ok());
    p.functions[0].1.blocks[1].1.terminator = Terminator::Await {
        conditions: vec![WaitCondition { task: "music".to_string(), milestone: Milestone::Finished }],
        next: "enter".to_string(),
        on_cancelled: "enter".to_string(),
        on_failed: "enter".to_string(),
    };
    assert_eq!(code(&p), "E_INFINITE_WAIT");
}

#[test]
fn uninitialized_local_rejected() {
    let mut p = program(contract(vec![]), vec![text("a", "Dear reader.")]);
    let f = &mut p.functions[0].1;
    f.locals.push(("unset".to_string(), ValueType::I32));
    f.blocks[0].1.ops.push(Op {
        id: "bad".to_string(),
        operation: Operation::Assign { target: "affection".to_string(), value: Expr::Var { name: "unset".to_string() } },
    });
    assert_eq!(code(&p), "E_UNINITIALIZED");
}
