use nir::format::{AssetKind, Node};
use nir::locale::{LocaleConfig, LocaleFontPlan};
use nir::rootindex::{validate_root_index, AssetIndexEntry, RootIndex};

fn hash(c: char) -> String {
    std::iter::repeat(c).take(64).collect()
}

fn entry(kind: AssetKind, object: char, catalog: &str) -> AssetIndexEntry {
    AssetIndexEntry { kind, object: hash(object), catalog: catalog.to_string() }
}

fn node(id: &str, asset: Option<&str>) -> Node {
    Node {
        id: id.to_string(),
        parent: None,
        asset: asset.map(|a| a.to_string()),
        x_bits: 0,
        y_bits: 0,
        width_bits: 0,
        height_bits: 0,
        scale_bits: 1.0f32.to_bits(),
        opacity_bits: 1.0f32.to_bits(),
        color_bits: [1.0f32.to_bits(); 4],
        order: 0,
        clip_bits: None,
    }
}

fn plan(fonts: &[&str], assets: &[(String, AssetIndexEntry)]) -> LocaleFontPlan {
    let fonts: Vec<String> = fonts.iter().map(|f| f.to_string()).collect();
    let objects: Vec<(String, String)> = assets.iter().map(|(k, e)| (k.clone(), e.object.clone())).collect();
    let digest = LocaleFontPlan::digest_for(&fonts, &objects);
    LocaleFontPlan { fonts, digest }
}

fn root() -> RootIndex {
    let assets = vec![
        ("body".to_string(), entry(AssetKind::Font, 'a', "catalog.fonts")),
        ("bg".to_string(), entry(AssetKind::Image, 'b', "catalog.fonts")),
    ];
    let p = plan(&["body"], &assets);
    RootIndex {
        locales: vec!["en".to_string()],
        default_locale: "en".to_string(),
        locale_config: LocaleConfig {
            default_ui: "en".to_string(),
            default_text: "en".to_string(),
            ui: vec![("en".to_string(), p.clone())],
            text: vec![("en".to_string(), p)],
        },
        assets,
        catalogs: vec![("catalog.fonts".to_string(), hash('c'))],
        task_owners: vec![("music".to_string(), "main".to_string())],
        scene_owners: vec![("title".to_string(), "main".to_string())],
        title_scene: Some("title".to_string()),
        title_nodes: vec![node("bg", Some("bg"))],
    }
}

fn error_of(r: &RootIndex) -> (String, String, String) {
    let d = validate_root_index(r).unwrap_err();
    (d.code, d.location, d.message)
}

fn triple(a: &str, b: &str, c: &str) -> (String, String, String) {
    (a.to_string(), b.to_string(), c.to_string())
}

#[test]
fn consistent_root_index_passes() {
    assert!(validate_root_index(&root()).is_ok());
}

#[test]
fn locale_set_must_match_text_plans() {
    let mut r = root();
    r.locales.push("zh-Hans".to_string());
    assert_eq!(error_of(&r), triple("E_LOCALE_CONFIG", "program.locale_config", "invalid runtime locale set"));
    let mut r = root();
    r.locale_config.default_ui = "fr".to_string();
    assert_eq!(error_of(&r).0, "E_LOCALE_CONFIG");
}

#[test]
fn font_plan_must_carry_its_digest_and_fonts() {
    let mut r = root();
    r.locale_config.text[0].1.digest = hash('0');
    assert_eq!(error_of(&r), triple("E_FONT_PLAN", "text.en", "invalid font plan index"));
    let mut r = root();
    let bad = plan(&["bg"], &r.assets);
    r.locale_config.ui[0].1 = bad;
    assert_eq!(error_of(&r), triple("E_FONT_PLAN", "ui.en", "invalid font plan index"));
}

#[test]
fn catalog_and_asset_identities_are_checked() {
    let mut r = root();
    r.catalogs[0].1 = "short".to_string();
    assert_eq!(error_of(&r), triple("E_CATALOG", "catalog.fonts", "invalid catalog identity"));
    let mut r = root();
    r.assets[1].1.catalog = "catalog.none".to_string();
    assert_eq!(error_of(&r), triple("E_ASSET", "bg", "asset index references an unknown object or catalog"));
}

#[test]
fn task_owner_entries_are_nonempty() {
    let mut r = root();
    r.task_owners[0].1 = String::new();
    assert_eq!(error_of(&r), triple("E_TASK", "music", "invalid task owner"));
}

#[test]
fn title_scene_is_owned_and_valid() {
    let mut r = root();
    r.scene_owners.clear();
    assert_eq!(error_of(&r), triple("E_SCENE", "title", "invalid root title scene"));
    let mut r = root();
    r.title_nodes[0].asset = Some("body".to_string());
    assert_eq!(error_of(&r), triple("E_ASSET_TYPE", "title", "body"));
    let mut r = root();
    r.title_scene = None;
    assert_eq!(error_of(&r), triple("E_SCENE", "title_nodes", "title nodes without a title scene"));
}
