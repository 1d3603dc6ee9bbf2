use nir::dependencies::{build_closure, catalog_needs, dependency_report, module_needs, BootFile, Need, RuntimeBuild};
use nir::format::{Asset, AssetKind, EngineFiles, Micros, Object};
use nir::release::{AssetCatalogBuildReport, ModuleBuildReport, TextBuildReport};

fn s(x: &str) -> String {
    x.to_string()
}

fn object(hash: &str, bytes: u64) -> (String, Object) {
    (s(hash), Object { path: format!("objects/{hash}"), bytes, media_type: s("application/json") })
}

fn need(hash: &str, category: &str, reason: &str) -> Need {
    Need::Object { hash: s(hash), category: s(category), reason: s(reason) }
}

fn asset(kind: AssetKind, object: &str) -> Asset {
    Asset { kind, object: s(object), bytes: 1, width: 0, height: 0, duration_us: Micros(0), decoded_bytes: 0 }
}

fn runtime() -> RuntimeBuild {
    RuntimeBuild {
        modules: vec![
            (
                s("main"),
                ModuleBuildReport {
                    code: s("code-main"),
                    code_bytes: 5,
                    static_content: s("static-main"),
                    static_bytes: 7,
                    asset_catalogs: vec![s("catalog.a")],
                    locales: vec![(s("en"), TextBuildReport { object: s("text-main-en"), bytes: 3 })],
                },
            ),
            (
                s("side"),
                ModuleBuildReport {
                    code: s("code-side"),
                    code_bytes: 5,
                    static_content: s("static-side"),
                    static_bytes: 7,
                    asset_catalogs: vec![],
                    locales: vec![],
                },
            ),
        ],
        catalogs: vec![
            (s("catalog.a"), AssetCatalogBuildReport { object: s("cat-a"), bytes: 2, consumers: vec![s("module:main"), s("bootstrap")], assets: vec![s("bg")] }),
            (s("catalog.f"), AssetCatalogBuildReport { object: s("cat-f"), bytes: 2, consumers: vec![s("locale:ui:en")], assets: vec![s("font")] }),
        ],
        catalog_assets: vec![(s("catalog.a"), vec![s("bg")]), (s("catalog.f"), vec![s("font")])],
        assets: vec![(s("bg"), asset(AssetKind::Image, "img-bg")), (s("font"), asset(AssetKind::Font, "font-obj"))],
        module_dependencies: vec![(s("main"), vec![s("side")])],
        entry_module: s("main"),
        ui_locales: vec![s("en")],
        text_locales: vec![s("en")],
        game_id: s("demo"),
        entry: s("main"),
    }
}

fn objects() -> Vec<(String, Object)> {
    vec![
        object("root", 100),
        object("js", 10),
        object("wasm", 20),
        object("host", 30),
        object("cat-a", 2),
        object("cat-f", 2),
        object("img-bg", 1000),
        object("font-obj", 500),
        object("code-main", 5),
        object("static-main", 7),
        object("text-main-en", 3),
        object("code-side", 5),
        object("static-side", 7),
    ]
}

fn engine() -> EngineFiles {
    EngineFiles { js: s("js"), wasm: s("wasm"), host: s("host") }
}

fn boot_files() -> Vec<BootFile> {
    vec![
        BootFile { path: s("index.html"), bytes: b"<html>".to_vec(), media_type: s("text/html; charset=utf-8"), reason: s("document bootstrap") },
        BootFile { path: s("channels/stable.json"), bytes: b"{\"format\":1}".to_vec(), media_type: s("application/json"), reason: s("selected release channel pointer") },
    ]
}

#[test]
fn built_closure_counts_repeated_needs_once() {
    let objects = vec![object("a", 10), object("b", 20)];
    let needs = vec![need("a", "root", "first"), need("b", "engine", "second"), need("a", "engine", "again")];
    let c = build_closure(&objects, &needs, &vec![]).unwrap();
    assert_eq!(c.object_count, 2);
    assert_eq!(c.object_bytes, 30);
    assert_eq!(c.total_bytes, 30);
    let a = &c.objects.iter().find(|(k, _)| k == "a").unwrap().1;
    let mut reasons = a.reasons.clone();
    reasons.sort();
    assert_eq!(reasons, vec![s("again"), s("first")]);
    let mut cats = c.category_bytes.clone();
    cats.sort();
    assert_eq!(cats, vec![(s("engine"), 30), (s("root"), 10)]);
}

#[test]
fn first_failing_step_is_the_error() {
    let objects = vec![object("a", 10)];
    let needs = vec![need("a", "root", "r"), need("zz", "engine", "e"), Need::Fail { message: s("E_LATER") }];
    assert_eq!(build_closure(&objects, &needs, &vec![]).unwrap_err(), "E_DEPENDENCY_OBJECT: missing zz");
    let needs = vec![Need::Fail { message: s("E_FIRST") }, need("zz", "engine", "e")];
    assert_eq!(build_closure(&objects, &needs, &vec![]).unwrap_err(), "E_FIRST");
}

#[test]
fn catalogs_are_selected_by_consumer() {
    let rt = runtime();
    let needs = catalog_needs(&rt, "bootstrap");
    match &needs[..] {
        [Need::Object { hash: h1, category: c1, reason: r1 }, Need::Object { hash: h2, category: c2, reason: r2 }] => {
            assert_eq!((h1.as_str(), c1.as_str(), r1.as_str()), ("cat-a", "catalog", "catalog catalog.a selected by bootstrap"));
            assert_eq!((h2.as_str(), c2.as_str(), r2.as_str()), ("img-bg", "media_image", "asset bg selected by bootstrap"));
        }
        other => panic!("unexpected steps {:?}", other),
    }
    let mut broken = runtime();
    broken.assets.clear();
    match &catalog_needs(&broken, "locale:ui:en")[..] {
        [_, Need::Fail { message }] => assert_eq!(message, "E_DEPENDENCY_ASSET: font"),
        other => panic!("unexpected steps {:?}", other),
    }
}

#[test]
fn module_payload_needs_packages_then_catalogs() {
    let rt = runtime();
    let needs = module_needs(&rt, "main", "en", "en", "why");
    let hashes: Vec<&str> = needs
        .iter()
        .map(|n| match n {
            Need::Object { hash, .. } => hash.as_str(),
            Need::Fail { message } => message.as_str(),
        })
        .collect();
    assert_eq!(hashes, vec!["static-main", "code-main", "text-main-en", "cat-a", "img-bg", "cat-f", "font-obj"]);
    match &needs[0] {
        Need::Object { reason, .. } => assert_eq!(reason, "module main static declarations (why)"),
        _ => panic!("expected an object"),
    }
    match &module_needs(&rt, "ghost", "en", "en", "why")[..] {
        [Need::Fail { message }] => assert_eq!(message, "E_DEPENDENCY_MODULE: ghost"),
        other => panic!("unexpected steps {:?}", other),
    }
}

#[test]
fn report_has_boot_entry_and_single_module_closures() {
    let rt = runtime();
    let report = dependency_report(&objects(), &rt, "root", &engine(), &boot_files()).unwrap();
    assert_eq!(report.format, 1);
    assert_eq!(report.game_id, "demo");
    assert_eq!(report.module_dependencies, vec![(s("main"), vec![s("side")]), (s("side"), vec![])]);
    let boot = &report.boot[0].1[0].1;
    // root, three engine files, catalog a (bootstrap) with its image, catalog f (ui font) with its font.
    assert_eq!(boot.object_count, 8);
    assert_eq!(boot.object_bytes, 100 + 10 + 20 + 30 + 2 + 1000 + 2 + 500);
    assert_eq!(boot.file_count, 2);
    assert_eq!(boot.file_bytes, 6 + 12);
    let entry = &report.entry_reachable[0].1[0].1;
    // Adds main's static, code and text, and side's static and code.
    assert_eq!(entry.object_count, 13);
    let side = &report.modules[1].1[0].1[0].1;
    assert_eq!(report.modules[1].0, "side");
    assert_eq!(side.object_count, 4);
    assert_eq!(side.file_count, 0);
}

#[test]
fn report_fails_on_a_missing_object() {
    let rt = runtime();
    let mut objects = objects();
    objects.retain(|(k, _)| k != "code-side");
    assert_eq!(
        dependency_report(&objects, &rt, "root", &engine(), &boot_files()).unwrap_err(),
        "E_DEPENDENCY_OBJECT: missing code-side"
    );
}

#[test]
fn entry_closure_holds_the_boot_closure() {
    let rt = runtime();
    let report = dependency_report(&objects(), &rt, "root", &engine(), &boot_files()).unwrap();
    let boot = &report.boot[0].1[0].1;
    let entry = &report.entry_reachable[0].1[0].1;
    for (hash, _) in &boot.objects {
        assert!(entry.objects.iter().any(|(h, _)| h == hash), "{hash} missing from the entry closure");
    }
    assert_eq!(entry.files.len(), boot.files.len());
}
