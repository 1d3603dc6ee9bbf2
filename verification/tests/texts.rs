use nir::format::{Span, ValueType};
use nir::texts::{
    migrate_bundle, migrate_contracts, migration_ledger, text_review, text_target, text_update, AuthorTextContract,
    AuthorTextDoc, LegacyContract, LegacyDoc, LocaleBundle, RevisionError, StatusTotals, TextIssue, TextRevisions,
    TextSources, TextStatus,
};

fn text(id: &str, t: &str) -> Span {
    Span::Text { id: id.to_string(), text: t.to_string(), emphasis: false }
}

fn doc(s: u32, c: u32, spans: Vec<Span>) -> AuthorTextDoc {
    AuthorTextDoc { source_revision: s, contract_revision: c, spans }
}

fn sources() -> TextSources {
    TextSources {
        module_id: "main".to_string(),
        namespaced: false,
        source: "zh-Hans".to_string(),
        contract_file: "content/main/texts/contracts.json".to_string(),
        contracts: vec![(
            "intro".to_string(),
            AuthorTextContract { source_revision: 1, contract_revision: 1, meaning_revision: 1, gates: vec![], params: vec![] },
        )],
        bundles: vec![
            (
                "en".to_string(),
                LocaleBundle {
                    file: "content/main/texts/en.json".to_string(),
                    docs: vec![("intro".to_string(), doc(1, 1, vec![text("a", "The rain stopped.")]))],
                },
            ),
            (
                "zh-Hans".to_string(),
                LocaleBundle {
                    file: "content/main/texts/zh-Hans.json".to_string(),
                    docs: vec![("intro".to_string(), doc(1, 1, vec![text("a", "雨停了。")]))],
                },
            ),
        ],
        ledger: TextRevisions { format: 1, source_locale: "zh-Hans".to_string(), texts: vec![] },
    }
}

fn digests(source: &str, en: &str) -> Vec<(String, Vec<(String, String)>)> {
    vec![
        ("zh-Hans".to_string(), vec![("intro".to_string(), source.to_string())]),
        ("en".to_string(), vec![("intro".to_string(), en.to_string())]),
    ]
}

fn codes(s: &TextSources, d: &Vec<(String, Vec<(String, String)>)>) -> Vec<String> {
    s.report(d).issues.into_iter().map(|i| i.code).collect()
}

fn refused(r: Result<bool, RevisionError>) -> String {
    match r {
        Err(RevisionError::Refused(m)) => m,
        other => panic!("expected a refusal, got {:?}", other),
    }
}

#[test]
fn copy_edit_requires_update_then_review() {
    let mut s = sources();
    // A new text is recorded at revisions 1.
    assert_eq!(text_update(&mut s, "intro", false, "src1", "shape").unwrap(), true);
    let d = digests("src1", "en1");
    assert_eq!(codes(&s, &d), vec!["E_TRANSLATION_UNREVIEWED".to_string()]);
    text_review(&mut s, "intro", "en", &d).unwrap();
    assert!(s.record_review("intro", "en", "en1"));
    assert!(s.report(&d).ready);
    // The source changes: the report asks for an update, review is refused.
    let d2 = digests("src2", "en1");
    assert_eq!(codes(&s, &d2), vec!["E_TEXT_SOURCE_CHANGED".to_string()]);
    match text_review(&mut s, "intro", "en", &d2) {
        Err(RevisionError::Refused(m)) => {
            assert_eq!(m, "E_TEXT_SOURCE_CHANGED: record valid source intro before reviewing translations")
        }
        other => panic!("{:?}", other),
    }
    assert_eq!(text_update(&mut s, "intro", false, "src2", "shape").unwrap(), true);
    let c = &s.contracts[0].1;
    assert_eq!((c.source_revision, c.contract_revision, c.meaning_revision), (2, 1, 1));
    let status = s.report(&d2);
    assert_eq!(status.issues[0].code, "E_TRANSLATION_STALE");
    assert_eq!(status.issues[0].message, "expected source 2 / contract 1, found source 1 / contract 1");
    assert_eq!(status.issues[0].pointer, "/intro");
    assert_eq!(status.issues[0].file, "content/main/texts/en.json");
    text_review(&mut s, "intro", "en", &d2).unwrap();
    assert!(s.record_review("intro", "en", "en2"));
    assert!(s.report(&digests("src2", "en2")).ready);
}

#[test]
fn update_after_record_changes_nothing() {
    let mut s = sources();
    assert_eq!(text_update(&mut s, "intro", false, "src1", "shape").unwrap(), true);
    let ledger_before = format!("{:?}", s.ledger);
    assert_eq!(text_update(&mut s, "intro", false, "src1", "shape").unwrap(), false);
    assert_eq!(format!("{:?}", s.ledger), ledger_before);
}

#[test]
fn contract_change_requires_meaning_bump() {
    let mut s = sources();
    text_update(&mut s, "intro", false, "src1", "shape1").unwrap();
    assert_eq!(
        refused(text_update(&mut s, "intro", false, "src1", "shape2")),
        "E_TEXT_MEANING: Gate/parameter contract changes require --meaning bump"
    );
    assert_eq!(text_update(&mut s, "intro", true, "src1", "shape2").unwrap(), true);
    let c = &s.contracts[0].1;
    assert_eq!((c.source_revision, c.contract_revision, c.meaning_revision), (2, 2, 2));
}

#[test]
fn hand_edited_revisions_are_refused() {
    let mut s = sources();
    text_update(&mut s, "intro", false, "src1", "shape").unwrap();
    s.contracts[0].1.source_revision = 5;
    assert_eq!(
        refused(text_update(&mut s, "intro", false, "src2", "shape")),
        "E_TEXT_REVISION: intro: leave recorded integers unchanged; text update increments them"
    );
    let mut fresh = sources();
    fresh.contracts[0].1.meaning_revision = 2;
    assert_eq!(
        refused(text_update(&mut fresh, "intro", false, "src1", "shape")),
        "E_TEXT_REVISION: new text must begin at revisions 1"
    );
    assert_eq!(refused(text_update(&mut fresh, "absent", true, "x", "y")), "E_TEXT_ID: unknown contract absent");
}

#[test]
fn gate_mismatch_is_a_span_error() {
    let mut s = sources();
    s.contracts[0].1.gates = vec!["one".to_string()];
    match text_update(&mut s, "intro", true, "src1", "shape") {
        Err(RevisionError::Spans(d)) => assert_eq!(d.code, "E_GATE"),
        other => panic!("{:?}", other),
    }
}

#[test]
fn review_refusals() {
    let mut s = sources();
    text_update(&mut s, "intro", false, "src1", "shape").unwrap();
    let d = digests("src1", "en1");
    match text_review(&mut s, "intro", "zh-Hans", &d) {
        Err(RevisionError::Refused(m)) => assert_eq!(m, "E_TEXT_REVIEW: use text update for the source locale"),
        other => panic!("{:?}", other),
    }
    match text_review(&mut s, "intro", "fr", &d) {
        Err(RevisionError::Refused(m)) => assert_eq!(m, "E_LOCALE: unknown fr"),
        other => panic!("{:?}", other),
    }
}

#[test]
fn report_lists_missing_and_uncontracted_texts() {
    let mut s = sources();
    text_update(&mut s, "intro", false, "src1", "shape").unwrap();
    s.bundles[0].1.docs = vec![("extra".to_string(), doc(1, 1, vec![text("a", "x")]))];
    let status = s.report(&digests("src1", "en1"));
    assert!(!status.ready);
    let codes: Vec<String> = status.issues.iter().map(|i| i.code.clone()).collect();
    assert_eq!(codes, vec!["E_TRANSLATION_MISSING".to_string(), "E_TEXT_CONTRACT".to_string()]);
    assert_eq!(status.texts, 1);
    assert_eq!(status.locales, 2);
}

#[test]
fn namespaced_ids_and_pointers() {
    let mut s = sources();
    s.namespaced = true;
    s.contracts[0].0 = "a/b~c".to_string();
    let status = s.report(&vec![]);
    assert_eq!(status.issues[0].code, "E_TEXT_UNRECORDED");
    assert_eq!(status.issues[0].text_id, "main.a/b~c");
    assert_eq!(status.issues[0].pointer, "/a~1b~0c");
}

#[test]
fn text_ids_resolve_to_modules() {
    let one = vec!["main".to_string()];
    assert_eq!(text_target(&one, "intro").unwrap(), ("main".to_string(), "intro".to_string()));
    let two = vec!["intro".to_string(), "garden".to_string()];
    assert_eq!(text_target(&two, "garden.gate").unwrap(), ("garden".to_string(), "gate".to_string()));
    assert_eq!(text_target(&two, "gate").unwrap_err(), "E_TEXT_ID: multi-module text IDs use module.text form");
    assert_eq!(text_target(&two, "other.gate").unwrap_err(), "E_TEXT_ID: unknown module/text other.gate");
    assert_eq!(text_target(&two, "garden.").unwrap_err(), "E_TEXT_ID: unknown module/text garden.");
}

#[test]
fn runtime_contract_keeps_revisions_and_takes_a_digest() {
    let c = AuthorTextContract {
        source_revision: 3,
        contract_revision: 1,
        meaning_revision: 1,
        gates: vec!["g".to_string()],
        params: vec![("name".to_string(), ValueType::String)],
    };
    let r = c.runtime();
    assert_eq!((r.source_revision, r.contract_revision, r.meaning_revision), (3, 1, 1));
    assert_eq!(r.contract_digest.len(), 64);
    let mut copy_edit = c.clone();
    copy_edit.source_revision = 4;
    assert_eq!(copy_edit.runtime().contract_digest, r.contract_digest);
    let mut bump = c.clone();
    bump.meaning_revision = 2;
    assert_ne!(bump.runtime().contract_digest, r.contract_digest);
}

#[test]
fn revision_counter_overflow_is_refused() {
    assert_eq!(nir::texts::next(1), Ok(2));
    assert_eq!(nir::texts::next(u32::MAX), Err("E_TEXT_REVISION: revision overflow".to_string()));
}

#[test]
fn legacy_texts_migrate_with_a_review_baseline() {
    let old = vec![("intro".to_string(), LegacyContract { revision: 3, gates: vec![], params: vec![] })];
    let contracts = migrate_contracts(&old);
    let c = &contracts[0].1;
    assert_eq!((c.source_revision, c.contract_revision, c.meaning_revision), (3, 3, 3));
    let docs = vec![("intro".to_string(), LegacyDoc { revision: 3, spans: vec![text("a", "Hello")] })];
    let en = migrate_bundle("en", &contracts, &docs).unwrap();
    assert_eq!((en[0].1.source_revision, en[0].1.contract_revision), (3, 3));
    let stale = vec![("intro".to_string(), LegacyDoc { revision: 2, spans: vec![text("a", "Hello")] })];
    match migrate_bundle("en", &contracts, &stale) {
        Err(RevisionError::Refused(m)) => assert_eq!(m, "E_TEXT_REVISION: legacy en/intro"),
        other => panic!("{:?}", other),
    }
    match migrate_bundle("en", &contracts, &vec![]) {
        Err(RevisionError::Refused(m)) => assert_eq!(m, "E_TEXT_MIGRATION: incomplete/extra legacy translations in en"),
        other => panic!("{:?}", other),
    }
    let wrong = vec![("other".to_string(), LegacyDoc { revision: 3, spans: vec![] })];
    match migrate_bundle("en", &contracts, &wrong) {
        Err(RevisionError::Refused(m)) => assert_eq!(m, "E_TRANSLATION_MISSING: en/intro"),
        other => panic!("{:?}", other),
    }
    let locales = vec!["en".to_string(), "zh-Hans".to_string()];
    let d = vec![
        ("en".to_string(), vec![("intro".to_string(), "doc-en".to_string())]),
        ("zh-Hans".to_string(), vec![("intro".to_string(), "spans-zh".to_string())]),
    ];
    let shapes = vec![("intro".to_string(), "shape".to_string())];
    let ledger = migration_ledger("zh-Hans", &locales, &contracts, &d, &shapes).unwrap();
    let rec = &ledger.texts[0].1;
    assert_eq!(rec.source_digest, "spans-zh");
    assert_eq!(rec.shape_digest, "shape");
    assert_eq!(rec.reviewed, vec![("en".to_string(), "doc-en".to_string())]);
    assert_eq!(rec.contract_digest, contracts[0].1.runtime().contract_digest);
    assert_eq!(
        migration_ledger("fr", &locales, &contracts, &d, &shapes).unwrap_err(),
        "E_LOCALE: missing legacy source"
    );
}

#[test]
fn project_status_needs_one_locale_set_and_qualified_ids() {
    let issue = |id: &str| TextIssue {
        code: "E_TEXT_UNRECORDED".to_string(),
        text_id: id.to_string(),
        locale: "zh-Hans".to_string(),
        file: "f".to_string(),
        pointer: "/x".to_string(),
        message: "m".to_string(),
    };
    let report = |n: usize, issues: Vec<TextIssue>| TextStatus {
        format: 1,
        source_locale: "zh-Hans".to_string(),
        texts: n,
        locales: 2,
        ready: issues.is_empty(),
        issues,
    };
    let mut t = StatusTotals::new();
    t.add(vec!["en".to_string(), "zh-Hans".to_string()], report(2, vec![issue("a.x")])).unwrap();
    t.add(vec!["zh-Hans".to_string(), "en".to_string()], report(3, vec![])).unwrap();
    assert_eq!(
        t.clone().add(vec!["en".to_string()], report(1, vec![])).unwrap_err(),
        "E_TRANSLATION: all modules must provide the same locale bundles"
    );
    let st = t.clone().finish("zh-Hans", true).unwrap();
    assert_eq!((st.texts, st.locales, st.ready), (5, 2, false));
    let mut u = StatusTotals::new();
    u.add(vec!["en".to_string()], report(1, vec![issue("plain")])).unwrap();
    assert_eq!(u.finish("zh-Hans", true).unwrap_err(), "E_TEXT_ID: internal module-qualified diagnostic was lost");
}

#[test]
fn loaded_sources_are_checked_in_order() {
    let s = sources();
    let ledger_file = "content/main/texts/revisions.json".to_string();
    let ok = TextSources::assemble(
        s.module_id.clone(),
        false,
        s.source.clone(),
        s.contract_file.clone(),
        ledger_file.clone(),
        s.contracts.clone(),
        s.bundles.clone(),
        s.ledger.clone(),
    )
    .unwrap();
    assert_eq!(ok.contract_file, s.contract_file);
    assert_eq!(ok.bundles.len(), 2);
    // No bundle for the source locale.
    let missing = TextSources::assemble(
        s.module_id.clone(),
        false,
        s.source.clone(),
        s.contract_file.clone(),
        ledger_file.clone(),
        s.contracts.clone(),
        vec![s.bundles[0].clone()],
        s.ledger.clone(),
    );
    assert_eq!(missing.unwrap_err(), "E_LOCALE: source locale bundle is missing");
    // The ledger shares the contract file.
    let shared = TextSources::assemble(
        s.module_id.clone(),
        false,
        s.source.clone(),
        s.contract_file.clone(),
        s.contract_file.clone(),
        s.contracts.clone(),
        s.bundles.clone(),
        s.ledger.clone(),
    );
    assert_eq!(
        shared.unwrap_err(),
        "E_TEXT_PATH: contract, locale bundles and revision record must use distinct files"
    );
    // A ledger of another source locale.
    let other = TextSources::assemble(
        s.module_id.clone(),
        false,
        s.source.clone(),
        s.contract_file.clone(),
        ledger_file,
        s.contracts.clone(),
        s.bundles.clone(),
        TextRevisions { format: 1, source_locale: "en".to_string(), texts: vec![] },
    );
    assert_eq!(other.unwrap_err(), "E_TEXT_LEDGER: unsupported record or source locale changed");
}
