use nir::content::validate_release;
use nir::format::{EngineFiles, Object, ReleaseManifest};
use nir::identity::{digest, valid_hash, verify};
use nir::locale::negotiate;

#[test]
fn script_not_guessed() {
    let a = vec!["zh-Hans".to_string(), "en".to_string()];
    assert_eq!(negotiate("zh-Hant", &a, "en"), "en");
}

#[test]
fn corrupted_bytes() {
    assert!(verify(b"changed", &digest(b"original")).is_err());
}

#[test]
fn digest_is_lowercase_sha256_hex() {
    assert_eq!(
        digest(b"abc"),
        "ba7816bf8f01cfea414140de5dae2223b00361a396177a9cb410ff61f20015ad"
    );
    assert!(valid_hash(&digest(b"abc")));
    assert!(!valid_hash("BA7816BF"));
}

#[test]
fn verify_accepts_matching_bytes_and_names_the_digest_on_mismatch() {
    let d = digest(b"original");
    assert!(verify(b"original", &d).is_ok());
    let e = verify(b"changed", &d).unwrap_err();
    assert_eq!(e.code, "E_DIGEST");
    assert_eq!(e.location, d);
    assert_eq!(e.message, "content identity mismatch");
}

#[test]
fn negotiation_follows_aliases_and_falls_back() {
    let a = vec!["zh-Hans".to_string(), "en".to_string()];
    assert_eq!(negotiate("zh-CN", &a, "en"), "zh-Hans");
    assert_eq!(negotiate("zh", &a, "en"), "zh-Hans");
    assert_eq!(negotiate("en-GB", &a, "zh-Hans"), "en");
    assert_eq!(negotiate("fr", &a, "en"), "en");
    let only_en = vec!["en".to_string()];
    assert_eq!(negotiate("zh-SG", &only_en, "en"), "en");
}

fn release(objects: Vec<(String, Object)>, program: &str) -> ReleaseManifest {
    ReleaseManifest {
        format: 1,
        game_id: "game".to_string(),
        title: "Title".to_string(),
        version: "1.0.0".to_string(),
        engine_build: "build".to_string(),
        program: program.to_string(),
        objects,
        engine: EngineFiles { js: program.to_string(), wasm: program.to_string(), host: program.to_string() },
        notices: vec![],
    }
}

#[test]
fn release_with_unknown_program_or_bad_version_is_rejected() {
    let h = digest(b"program");
    let obj = Object { path: format!("objects/{h}.json"), bytes: 7, media_type: "application/json".to_string() };
    let ok = release(vec![(h.clone(), obj.clone())], &h);
    assert!(validate_release(&ok).is_ok());
    let mut bad = ok.clone();
    bad.format = 2;
    let e = validate_release(&bad).unwrap_err();
    assert_eq!(e.code, "E_VERSION");
    let missing = release(vec![], &h);
    assert!(validate_release(&missing).is_err());
}
