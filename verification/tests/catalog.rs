use nir::catalog::{check_asset_catalog, CatalogAsset, CatalogFile, FontSource};
use nir::format::AssetKind;
use nir::locale::{LocaleConfig, LocaleFontPlan};

fn s(x: &str) -> String {
    x.to_string()
}

fn plans() -> LocaleConfig {
    let plan = LocaleFontPlan { fonts: vec![s("body")], digest: s("x") };
    LocaleConfig { default_ui: s("en"), default_text: s("en"), ui: vec![(s("en"), plan.clone())], text: vec![(s("en"), plan)] }
}

fn source(id: &str, kind: AssetKind, path: &str) -> CatalogAsset {
    CatalogAsset {
        id: s(id),
        kind,
        rights: s("CC0"),
        local: s(path),
        normalized: path.to_lowercase(),
        font: None,
        expected_size: None,
        content: b"abc".to_vec(),
        width: 2,
        height: 3,
        duration_us: 500,
        audio_decoded_bytes: 40,
    }
}

fn file(assets: Vec<CatalogAsset>) -> CatalogFile {
    CatalogFile { path: s("assets/catalog.toml"), format: 1, assets }
}

fn err(files: Vec<CatalogFile>) -> String {
    check_asset_catalog(&files, &plans()).unwrap_err()
}

#[test]
fn catalog_sources_become_asset_records() {
    let mut font = source("body", AssetKind::Font, "fonts/Body.ttf");
    font.font = Some(FontSource { license: Some(s("OFL")) });
    let files = vec![file(vec![source("bg", AssetKind::Image, "img/bg.png"), source("bgm", AssetKind::Audio, "audio/bgm.wav")]), file(vec![font])];
    let v = check_asset_catalog(&files, &plans()).unwrap();
    assert_eq!(v.len(), 3);
    assert_eq!(v[0].0, "bg");
    assert_eq!((v[0].1.width, v[0].1.height, v[0].1.decoded_bytes, v[0].1.bytes), (2, 3, 24, 3));
    assert_eq!(v[0].1.object, "ba7816bf8f01cfea414140de5dae2223b00361a396177a9cb410ff61f20015ad");
    assert_eq!((v[1].1.duration_us.0, v[1].1.decoded_bytes, v[1].1.width), (500, 40, 0));
    assert_eq!((v[2].1.decoded_bytes, v[2].1.kind), (12, AssetKind::Font));
}

#[test]
fn catalog_errors_come_in_order() {
    let mut f = file(vec![]);
    f.format = 2;
    assert_eq!(err(vec![f]), "E_CATALOG_VERSION: assets/catalog.toml");
    let mut a = source("bg", AssetKind::Image, "bg.png");
    a.rights = s(" \t\u{3000}");
    assert_eq!(err(vec![file(vec![a])]), "E_RIGHTS: bg lacks source/permission record");
    let b = source("bg2", AssetKind::Image, "BG.png");
    assert_eq!(err(vec![file(vec![source("bg", AssetKind::Image, "bg.png"), b])]), "E_PATH_COLLISION: bg.png / BG.png");
    let mut c = source("bgm", AssetKind::Audio, "a.wav");
    c.font = Some(FontSource { license: Some(s("OFL")) });
    assert_eq!(err(vec![file(vec![c])]), "E_FONT_RECIPE: font recipe requires kind = font");
    let mut d = source("body", AssetKind::Font, "b.ttf");
    d.font = Some(FontSource { license: None });
    assert_eq!(err(vec![file(vec![d.clone()])]), "E_FONT_LICENSE: expected UTF-8 license");
    d.font = Some(FontSource { license: Some(s("  \n")) });
    assert_eq!(err(vec![file(vec![d.clone()])]), "E_FONT_LICENSE: empty license for body");
    d.id = s("other");
    d.font = Some(FontSource { license: Some(s("OFL")) });
    assert_eq!(err(vec![file(vec![d])]), "E_FONT_PLAN_UNUSED: font other is not referenced by a UI or text locale");
    let mut e = source("bg", AssetKind::Image, "bg.png");
    e.width = 9000;
    assert_eq!(err(vec![file(vec![e.clone()])]), "E_LIMIT: image bg dimensions");
    e.width = 4;
    e.expected_size = Some((5, 3));
    assert_eq!(err(vec![file(vec![e])]), "E_ASSET_SIZE: bg is 4x3");
    let dup = vec![file(vec![source("bg", AssetKind::Image, "a.png")]), file(vec![source("bg", AssetKind::Image, "b.png")])];
    assert_eq!(err(dup), "E_DUPLICATE: asset bg");
}
