use nir::format::{AssetKind, Object};
use nir::release::{asset_object_type, check_build_request, check_lock, declaration_owner, resolve_lock, ClosureBuilder, GameLock, SdkManifest};

fn sdk(digest: &str) -> SdkManifest {
    SdkManifest {
        format: 1,
        compiler_version: "0.1.0".to_string(),
        files: vec![("host.js".to_string(), digest.to_string())],
    }
}

#[test]
fn lock_drift_is_detected() {
    let lock = GameLock {
        format: 1,
        engine_api: "nir/1".to_string(),
        capability_profile: "web".to_string(),
        sdk_digest: "d".to_string(),
        sdk: sdk("a"),
    };
    let lock = Some(lock);
    assert!(check_lock(&lock, &sdk("a"), "nir/1", "web", "d").is_ok());
    let drift = "E_LOCK_DRIFT: SDK or engine requirements changed; run novelc resolve".to_string();
    assert_eq!(check_lock(&lock, &sdk("b"), "nir/1", "web", "d"), Err(drift.clone()));
    assert_eq!(check_lock(&lock, &sdk("a"), "nir/2", "web", "d"), Err(drift.clone()));
    assert_eq!(check_lock(&lock, &sdk("a"), "nir/1", "web", "e"), Err(drift));
}

#[test]
fn a_resolved_lock_checks_until_the_sdk_drifts_and_a_missing_lock_is_refused() {
    let lock = Some(resolve_lock(&sdk("a"), "nir-player/0.1", "web-v1", "digest-a"));
    assert!(check_lock(&lock, &sdk("a"), "nir-player/0.1", "web-v1", "digest-a").is_ok());
    assert!(check_lock(&lock, &sdk("drift"), "nir-player/0.1", "web-v1", "digest-a").unwrap_err().contains("E_LOCK_DRIFT"));
    assert_eq!(
        check_lock(&None, &sdk("a"), "nir-player/0.1", "web-v1", "digest-a"),
        Err("E_LOCK_MISSING: run novelc resolve explicitly".to_string())
    );
}

#[test]
fn declarations_belong_to_the_module_that_prefixes_them() {
    let modules = vec!["garden".to_string(), "main".to_string()];
    assert_eq!(declaration_owner("main.start", &modules).unwrap(), "main");
    assert_eq!(declaration_owner("garden.gate.open", &modules).unwrap(), "garden");
    assert_eq!(
        declaration_owner("mainly.x", &modules).unwrap_err(),
        "E_MODULE_OWNERSHIP: no module owns mainly.x"
    );
    let single = vec!["only".to_string()];
    assert_eq!(declaration_owner("anything", &single).unwrap(), "only");
}

fn object(bytes: u64) -> Object {
    Object { path: "objects/x".to_string(), bytes, media_type: "application/octet-stream".to_string() }
}

#[test]
fn closure_counts_each_object_once() {
    let objects = vec![("h1".to_string(), object(10)), ("h2".to_string(), object(5))];
    let mut c = ClosureBuilder::new();
    c.add_object(&objects, "h1", "code", "entry".to_string()).unwrap();
    c.add_object(&objects, "h1", "text", "locale".to_string()).unwrap();
    c.add_object(&objects, "h2", "code", "call".to_string()).unwrap();
    c.add_object(&objects, "h1", "code", "entry".to_string()).unwrap();
    assert_eq!(
        c.add_object(&objects, "h3", "code", "x".to_string()),
        Err("E_DEPENDENCY_OBJECT: missing h3".to_string())
    );
    c.add_file("index.html", b"abc", "text/html", "bootstrap");
    let r = c.finish();
    assert_eq!(r.object_count, 2);
    assert_eq!(r.object_bytes, 15);
    assert_eq!(r.file_count, 1);
    assert_eq!(r.file_bytes, 3);
    assert_eq!(r.total_bytes, 18);
    let mut cats = r.category_bytes.clone();
    cats.sort();
    assert_eq!(cats, vec![("code".to_string(), 15), ("text".to_string(), 10)]);
    assert_eq!(r.objects[0].1.reasons, vec!["entry".to_string(), "locale".to_string()]);
    assert_eq!(
        r.files[0].1.sha256,
        "ba7816bf8f01cfea414140de5dae2223b00361a396177a9cb410ff61f20015ad"
    );
}

#[test]
fn build_requests_need_a_known_profile_and_a_locked_release() {
    assert!(check_build_request("dev", false).is_ok());
    assert!(check_build_request("release", true).is_ok());
    assert_eq!(check_build_request("debug", true).unwrap_err(), "E_PROFILE: expected dev or release");
    assert_eq!(check_build_request("release", false).unwrap_err(), "E_RELEASE_LOCK: release builds require --locked");
}

#[test]
fn runtime_objects_are_typed_by_kind_and_font_outline() {
    let t = |k: AssetKind, b: &[u8]| {
        let (e, m) = asset_object_type(&k, &b.to_vec());
        (e, m)
    };
    assert_eq!(t(AssetKind::Image, b""), ("png".to_string(), "image/png".to_string()));
    assert_eq!(t(AssetKind::Audio, b"RIFF"), ("wav".to_string(), "audio/wav".to_string()));
    assert_eq!(t(AssetKind::Font, b"OTTO\0\x01"), ("otf".to_string(), "font/otf".to_string()));
    assert_eq!(t(AssetKind::Font, b"\0\x01\0\0"), ("ttf".to_string(), "font/ttf".to_string()));
    assert_eq!(t(AssetKind::Font, b"OTT"), ("ttf".to_string(), "font/ttf".to_string()));
}
