use nir::format::{Stage, ValueType};
use nir::roothead::{validate_root_head, FunctionIndexEntry, FunctionSignature, ModuleIndex, RootHead, TextIdentityEntry};

fn h(c: char) -> String {
    std::iter::repeat(c).take(64).collect()
}

fn s(x: &str) -> String {
    x.to_string()
}

fn sig(params: Vec<(String, ValueType)>) -> FunctionSignature {
    FunctionSignature { params, returns: None, entry: s("start"), entry_op: s("op0") }
}

fn root() -> RootHead {
    RootHead {
        format: 2,
        game_id: s("game"),
        entry: s("m.main"),
        requires: vec![s("control.v1")],
        stage: Stage { width: 1280, height: 720 },
        locales: vec![s("en")],
        default_locale: s("en"),
        asset_count: 0,
        function_index: vec![(s("m.main"), FunctionIndexEntry { module: s("m"), signature: sig(vec![]) })],
        modules: vec![(
            s("m"),
            ModuleIndex {
                functions: vec![(s("m.main"), sig(vec![]))],
                code: h('a'),
                static_content: h('b'),
                locales: vec![(s("en"), h('c'))],
                texts: vec![s("m.hello")],
            },
        )],
        text_contracts: vec![(
            s("m.hello"),
            TextIdentityEntry { module: s("m"), source_revision: 1, contract_revision: 1, meaning_revision: 1, contract_digest: h('d') },
        )],
        scene_owners: vec![],
        cue_owners: vec![],
        choice_owners: vec![],
        text_owners: vec![(s("m.hello"), s("m"))],
        task_owners: vec![],
    }
}

fn code_of(r: &RootHead) -> (String, String, String) {
    let d = validate_root_head(r).unwrap_err();
    (d.code, d.location, d.message)
}

#[test]
fn consistent_root_head_is_accepted() {
    assert!(validate_root_head(&root()).is_ok());
}

#[test]
fn root_head_rejects_a_broken_header() {
    let mut r = root();
    r.format = 1;
    assert_eq!(code_of(&r).0, "E_RUNTIME_ROOT");
    let mut r = root();
    r.locales = vec![s("fr")];
    r.default_locale = s("fr");
    assert_eq!(code_of(&r), (s("E_RUNTIME_ROOT"), s("program"), s("invalid runtime root index or configuration")));
    let mut r = root();
    r.stage.width = 8193;
    assert_eq!(code_of(&r).0, "E_RUNTIME_ROOT");
    let mut r = root();
    r.requires.push(s("teleport.v1"));
    assert_eq!(code_of(&r), (s("E_CAPABILITY"), s("requires"), s("teleport.v1")));
    let mut r = root();
    r.entry = s("m.other");
    assert_eq!(code_of(&r).0, "E_RUNTIME_ROOT");
}

#[test]
fn root_head_rejects_an_entry_with_parameters() {
    let mut r = root();
    let p = vec![(s("x"), ValueType::I32)];
    r.function_index[0].1.signature = sig(p.clone());
    r.modules[0].1.functions[0].1 = sig(p);
    assert_eq!(code_of(&r), (s("E_CALL"), s("entry"), s("entry requires arguments")));
}

#[test]
fn root_head_checks_each_module() {
    let mut r = root();
    r.modules[0].1.code = s("nothex");
    assert_eq!(code_of(&r), (s("E_MODULE"), s("m"), s("invalid module root index")));
    let mut r = root();
    r.modules[0].1.locales = vec![];
    assert_eq!(code_of(&r), (s("E_MODULE"), s("m"), s("invalid module root index")));
    let mut r = root();
    r.modules[0].1.functions.push((s("m.aux"), sig(vec![])));
    assert_eq!(code_of(&r), (s("E_MODULE"), s("m.aux"), s("function index missing")));
    let mut r = root();
    r.modules[0].1.functions[0].1.entry_op = s("op1");
    assert_eq!(code_of(&r), (s("E_MODULE"), s("m.main"), s("function interface ownership mismatch")));
    let mut r = root();
    r.modules[0].1.texts = vec![s("m.other")];
    assert_eq!(code_of(&r), (s("E_MODULE"), s("m"), s("text ownership index mismatch")));
}

#[test]
fn root_head_checks_function_index_and_ownership() {
    let mut r = root();
    r.function_index.push((s("m.ghost"), FunctionIndexEntry { module: s("m"), signature: sig(vec![]) }));
    assert_eq!(code_of(&r), (s("E_MODULE"), s("function_index"), s("orphan or mismatched function")));
    let mut r = root();
    r.task_owners.push((s("t"), s("nowhere")));
    assert_eq!(code_of(&r), (s("E_MODULE"), s("ownership"), s("invalid runtime ownership index")));
    let mut r = root();
    r.text_contracts[0].1.meaning_revision = 0;
    assert_eq!(code_of(&r), (s("E_MODULE"), s("ownership"), s("invalid runtime ownership index")));
}
