use nir::format::{
    Asset, AssetKind, AudioBus, CancelPolicy, Choice, ChoiceOption, Cue, Easing, Effect, EffectDef, Expr, FinishPolicy, Micros, Property, Scope, TextContract, Value,
    ValueType,
};
use nir::program::{validate_choices, validate_cues};

fn contract() -> TextContract {
    TextContract { source_revision: 1, contract_revision: 1, meaning_revision: 1, contract_digest: String::new(), gates: vec![], params: vec![] }
}

fn texts() -> Vec<(String, TextContract)> {
    vec![("t.yes".to_string(), contract()), ("t.no".to_string(), contract()), ("t.line".to_string(), contract()), ("t.who".to_string(), contract())]
}

fn option(id: &str, text: &str, visible: Option<Expr>) -> ChoiceOption {
    ChoiceOption { id: id.to_string(), text: text.to_string(), visible, enabled: None }
}

fn triple(d: nir::format::Diagnostic) -> (String, String, String) {
    (d.code, d.location, d.message)
}

fn t(a: &str, b: &str, c: &str) -> (String, String, String) {
    (a.to_string(), b.to_string(), c.to_string())
}

#[test]
fn choices_check_options_predicates_and_defaults() {
    let vars = vec![("flag".to_string(), ValueType::Bool), ("n".to_string(), ValueType::I32)];
    let ok = Choice {
        options: vec![option("yes", "t.yes", Some(Expr::Var { name: "flag".to_string() })), option("no", "t.no", None)],
        timeout_us: Some(Micros(5)),
        default: Some("no".to_string()),
    };
    assert!(validate_choices(&vec![("c".to_string(), ok.clone())], &texts(), &vars).is_ok());
    let dup = Choice { options: vec![option("a", "t.yes", None), option("a", "t.no", None)], timeout_us: None, default: None };
    assert_eq!(triple(validate_choices(&vec![("c".to_string(), dup)], &texts(), &vars).unwrap_err()), t("E_DUPLICATE", "c", "a"));
    let text = Choice { options: vec![option("a", "t.gone", None)], timeout_us: None, default: None };
    assert_eq!(triple(validate_choices(&vec![("c".to_string(), text)], &texts(), &vars).unwrap_err()), t("E_TEXT", "c", "t.gone"));
    let typed = Choice { options: vec![option("a", "t.yes", Some(Expr::Var { name: "n".to_string() }))], timeout_us: None, default: None };
    assert_eq!(
        triple(validate_choices(&vec![("c".to_string(), typed)], &texts(), &vars).unwrap_err()),
        t("E_TYPE", "c", "choice predicate must be Bool")
    );
    let unknown = Choice { options: vec![option("a", "t.yes", Some(Expr::Var { name: "ghost".to_string() }))], timeout_us: None, default: None };
    assert_eq!(triple(validate_choices(&vec![("c".to_string(), unknown)], &texts(), &vars).unwrap_err()), t("E_VARIABLE", "c", "ghost"));
    let mut timeout = ok;
    timeout.default = Some("maybe".to_string());
    assert_eq!(
        triple(validate_choices(&vec![("c".to_string(), timeout)], &texts(), &vars).unwrap_err()),
        t("E_CHOICE_DEFAULT", "c", "timeout requires a valid default")
    );
    let _ = Value::Bool(true);
}

fn def(id: &str, effect: Effect) -> EffectDef {
    EffectDef { id: id.to_string(), scope: Scope::Scene, effect }
}

fn clip(node: &str, property: Property, to: f32) -> Effect {
    Effect::Clip {
        node: node.to_string(),
        property,
        to_bits: to.to_bits(),
        duration_us: Micros(0),
        replace: false,
        easing: Easing::Linear,
        finish: FinishPolicy::CommitEnd,
        cancel: CancelPolicy::CommitCurrent,
    }
}

fn cue_error(effects: Vec<EffectDef>) -> (String, String, String) {
    let scenes = vec![("garden".to_string(), vec![])];
    let assets = vec![
        ("rain".to_string(), Asset { kind: AssetKind::Audio, object: "o".to_string(), bytes: 1, width: 0, height: 0, duration_us: Micros(1), decoded_bytes: 1 }),
        ("bg".to_string(), Asset { kind: AssetKind::Image, object: "i".to_string(), bytes: 1, width: 1, height: 1, duration_us: Micros(0), decoded_bytes: 1 }),
    ];
    let d = validate_cues(&vec![("open".to_string(), Cue { effects })], &scenes, &texts(), &assets).unwrap_err();
    assert!(d.details.is_some());
    triple(d)
}

#[test]
fn cues_check_effects_in_order() {
    let scenes = vec![("garden".to_string(), vec![])];
    let good = Cue {
        effects: vec![
            def("stage", Effect::StagePresent { scene: "garden".to_string(), duration_us: Micros(0) }),
            def("say", Effect::Dialogue { text: "t.line".to_string(), speaker: "t.who".to_string(), reveal_us: Micros(0) }),
            def("fade", clip("bg", Property::Opacity, 0.5)),
            def("grow", clip("bg", Property::Scale, 2.0)),
        ],
    };
    assert!(validate_cues(&vec![("open".to_string(), good)], &scenes, &texts(), &vec![]).is_ok());
    assert_eq!(cue_error(vec![]), t("E_LIMIT", "open", "invalid cue size"));
    let stage = || def("s", Effect::StagePresent { scene: "garden".to_string(), duration_us: Micros(0) });
    assert_eq!(cue_error(vec![stage(), stage()]), t("E_DUPLICATE", "open", "s"));
    assert_eq!(
        cue_error(vec![def("s", Effect::StagePresent { scene: "nowhere".to_string(), duration_us: Micros(0) })]),
        t("E_SCENE", "open", "nowhere")
    );
    assert_eq!(
        cue_error(vec![def("d", Effect::Dialogue { text: "t.line".to_string(), speaker: "t.nobody".to_string(), reveal_us: Micros(0) })]),
        t("E_TEXT", "open", "t.line")
    );
    assert_eq!(
        cue_error(vec![def("m", Effect::Audio { asset: "bg".to_string(), bus: AudioBus::Bgm, looped: true })]),
        t("E_ASSET_TYPE", "open", "bg")
    );
    assert_eq!(cue_error(vec![def("c", clip("bg", Property::Opacity, 1.5))]), t("E_VISUAL", "open", "bg"));
    assert_eq!(cue_error(vec![def("c", clip("bg", Property::X, f32::INFINITY))]), t("E_VISUAL", "open", "bg"));
    assert_eq!(cue_error(vec![def("c", clip("bg", Property::Scale, -1.0))]), t("E_VISUAL", "open", "bg"));
    assert_eq!(
        cue_error(vec![def("c", clip("bg", Property::X, 1.0)), def("d", clip("bg", Property::X, 2.0))]),
        t("E_OWNERSHIP", "open", "bg")
    );
    let other = def("t", Effect::StagePresent { scene: "garden".to_string(), duration_us: Micros(0) });
    assert_eq!(cue_error(vec![stage(), other]), t("E_CUE", "open", "at most one stage and dialogue per cue"));
}
