use nir::format::Stage;
use nir::locale::{LocaleConfig, LocaleFontPlan};
use nir::manifest::{check_assembly, check_manifest, check_module_files, check_source_locale, qualify_entries, Engine, GameManifest, ModuleFile};
use nir::release::{Game, Inputs};
use nir::source::Program;

fn manifest() -> GameManifest {
    GameManifest {
        project_format: 1,
        game: Game {
            id: "demo".to_string(),
            slug: "rain-2".to_string(),
            title: "Rain".to_string(),
            version: "1.0.0".to_string(),
            source_locale: "en".to_string(),
            title_scene: None,
        },
        engine: Engine { api: "nir-player/0.1".to_string(), capability_profile: "web-v1".to_string(), runtime_preset: "default".to_string() },
        stage: Stage { width: 1280, height: 720 },
        inputs: Inputs {
            modules: vec!["modules/main.toml".to_string()],
            asset_catalogs: vec![],
            theme: "theme.toml".to_string(),
            locales: Some("config/locales.toml".to_string()),
            player: None,
            scenarios: vec![],
            notices: vec![],
        },
    }
}

fn module_file(id: &str, exports: Vec<(&str, &str)>) -> ModuleFile {
    ModuleFile {
        module_format: 1,
        id: id.to_string(),
        sources: vec![],
        text_contracts: "texts.toml".to_string(),
        text_revisions: None,
        exports: exports.into_iter().map(|(a, b)| (a.to_string(), b.to_string())).collect(),
        text_bundles: vec![],
    }
}

#[test]
fn supported_manifest_passes() {
    assert!(check_manifest(&manifest()).is_ok());
}

#[test]
fn manifest_errors_come_in_order() {
    let mut m = manifest();
    m.engine.capability_profile = "desktop".to_string();
    assert_eq!(check_manifest(&m).unwrap_err(), "E_VERSION: unsupported project/engine profile");
    let mut m = manifest();
    m.inputs.modules.clear();
    assert_eq!(check_manifest(&m).unwrap_err(), "E_CAPABILITY: a project must list at least one module");
    let mut m = manifest();
    m.game.slug = "Rain".to_string();
    assert_eq!(check_manifest(&m).unwrap_err(), "E_SLUG: expected lowercase ASCII slug");
    m.game.slug = String::new();
    assert_eq!(check_manifest(&m).unwrap_err(), "E_SLUG: expected lowercase ASCII slug");
    let mut m = manifest();
    m.inputs.locales = None;
    assert_eq!(
        check_manifest(&m).unwrap_err(),
        "E_LOCALE_CONFIG: add inputs.locales = \"config/locales.toml\" and define UI/text font plans"
    );
}

#[test]
fn source_locale_must_be_default_text() {
    assert!(check_source_locale(&manifest(), "en").is_ok());
    assert_eq!(
        check_source_locale(&manifest(), "zh-Hans").unwrap_err(),
        "E_LOCALE_DEFAULT: game.source_locale must match config/locales.toml default_text"
    );
}

#[test]
fn projects_with_several_modules_are_accepted() {
    let mut m = manifest();
    m.inputs.modules.push("content/ch02/module.toml".to_string());
    assert!(check_manifest(&m).is_ok());
    let files = vec![module_file("ch01", vec![("start", "main")]), module_file("ch02", vec![("start", "main")])];
    assert_eq!(check_module_files(&files).unwrap(), "ch01.main");
}

#[test]
fn single_module_entry_is_not_qualified() {
    assert_eq!(check_module_files(&vec![module_file("main", vec![("start", "main.begin")])]).unwrap(), "main.begin");
}

#[test]
fn module_files_need_plain_distinct_identities_and_start() {
    let e = |files: Vec<ModuleFile>| check_module_files(&files).unwrap_err();
    assert_eq!(e(vec![module_file("a.b", vec![("start", "x")])]), "E_MODULE: unsupported identity/format");
    assert_eq!(e(vec![module_file("", vec![("start", "x")])]), "E_MODULE: unsupported identity/format");
    assert_eq!(
        e(vec![module_file("ch01", vec![("start", "x")]), module_file("ch01", vec![("start", "y")])]),
        "E_MODULE: duplicate module id ch01"
    );
    assert_eq!(e(vec![module_file("main", vec![("stop", "x")])]), "E_EXPORT: missing start export");
}

#[test]
fn fragment_entries_are_qualified_by_their_module() {
    let entries = vec![("main".to_string(), 1), ("helper".to_string(), 2)];
    assert_eq!(
        qualify_entries("ch01", entries.clone(), true),
        vec![("ch01.main".to_string(), 1), ("ch01.helper".to_string(), 2)]
    );
    assert_eq!(qualify_entries("ch01", entries.clone(), false), entries);
}

fn program(text_locales: &[&str], bundles: &[&str], title: Option<&str>) -> Program {
    let plan = LocaleFontPlan { fonts: vec![], digest: String::new() };
    Program {
        format: 1,
        game_id: "demo".to_string(),
        revision: String::new(),
        entry: "main".to_string(),
        requires: vec![],
        stage: Stage { width: 1280, height: 720 },
        variables: vec![],
        functions: vec![],
        scenes: vec![("garden".to_string(), vec![])],
        cues: vec![],
        choices: vec![],
        texts: vec![],
        locales: bundles.iter().map(|l| (l.to_string(), vec![])).collect(),
        locale_config: LocaleConfig {
            default_ui: "en".to_string(),
            default_text: "en".to_string(),
            ui: vec![("en".to_string(), plan.clone())],
            text: text_locales.iter().map(|l| (l.to_string(), plan.clone())).collect(),
        },
        assets: vec![],
        default_locale: "en".to_string(),
        title_scene: title.map(|t| t.to_string()),
    }
}

#[test]
fn assembly_checks_translations_then_title() {
    assert!(check_assembly(&program(&["en", "zh-Hans"], &["zh-Hans", "en"], Some("garden"))).is_ok());
    assert_eq!(
        check_assembly(&program(&["en"], &["en", "zh-Hans"], None)).unwrap_err(),
        "E_TRANSLATION: config/locales.toml text plans must exactly match complete text bundles"
    );
    assert_eq!(check_assembly(&program(&["en"], &["en"], Some("attic"))).unwrap_err(), "E_SCENE: title scene attic");
}
