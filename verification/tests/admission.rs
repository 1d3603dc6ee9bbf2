use nir::admission::{check_code_ops, check_static_first, check_tombstones, check_view_fresh, key_priority, ContentKey, OpTombstone};

fn s(x: &str) -> String {
    x.to_string()
}

fn tomb(f: &str, d: &str) -> OpTombstone {
    OpTombstone { function: s(f), code_digest: s(d) }
}

#[test]
fn batches_are_admitted_static_first() {
    let keys = vec![
        ContentKey::Text { module: s("m"), locale: s("en") },
        ContentKey::Code { module: s("m") },
        ContentKey::Catalog { catalog: s("c") },
        ContentKey::Static { module: s("m") },
    ];
    let ranks: Vec<u8> = keys.iter().map(key_priority).collect();
    assert_eq!(ranks, vec![3, 2, 1, 0]);
}

#[test]
fn a_view_with_retired_content_admits_nothing() {
    assert!(check_view_fresh(&vec![1, 2, 3], &vec![4, 5]).is_ok());
    let e = check_view_fresh(&vec![1, 2, 3], &vec![7, 2]).unwrap_err();
    assert_eq!((e.code.as_str(), e.location.as_str()), ("E_RESIDENCY_STALE", "runtime"));
    assert!(check_view_fresh(&vec![], &vec![1]).is_ok());
}

#[test]
fn view_tombstones_must_agree_with_the_ledger() {
    let known = vec![(s("op1"), tomb("f", "d1"))];
    assert!(check_tombstones(&known, &vec![(s("op1"), tomb("f", "d1")), (s("op2"), tomb("g", "d2"))]).is_ok());
    let e = check_tombstones(&known, &vec![(s("op2"), tomb("g", "d2")), (s("op1"), tomb("f", "d9"))]).unwrap_err();
    assert_eq!((e.code.as_str(), e.location.as_str(), e.message.as_str()), ("E_DUPLICATE", "op1", "operation identity tombstone differs"));
}

#[test]
fn code_and_text_need_their_static_package() {
    let resident = vec![ContentKey::Static { module: s("a") }, ContentKey::Code { module: s("b") }];
    assert!(check_static_first(&ContentKey::Code { module: s("a") }, &resident).is_ok());
    assert!(check_static_first(&ContentKey::Text { module: s("a"), locale: s("en") }, &resident).is_ok());
    let e = check_static_first(&ContentKey::Text { module: s("b"), locale: s("en") }, &resident).unwrap_err();
    assert_eq!((e.code.as_str(), e.location.as_str()), ("E_CONTENT_MISSING", "b"));
    assert!(check_static_first(&ContentKey::Static { module: s("z") }, &resident).is_ok());
}

#[test]
fn operation_identities_stay_with_their_code() {
    let tombs = vec![(s("op1"), tomb("f", "d1"))];
    let ops = vec![(s("op1"), s("f")), (s("op2"), s("f"))];
    assert!(check_code_ops(&ops, "d1", &vec![], &tombs).is_ok());
    let e = check_code_ops(&ops, "d2", &vec![], &tombs).unwrap_err();
    assert_eq!((e.code.as_str(), e.location.as_str(), e.message.as_str()), ("E_DUPLICATE", "op1", "operation identity belongs to different code"));
    let e = check_code_ops(&ops, "d1", &vec![s("op2")], &tombs).unwrap_err();
    assert_eq!((e.location.as_str(), e.message.as_str()), ("op2", "duplicate operation identity"));
    let twice = vec![(s("op3"), s("f")), (s("op3"), s("g"))];
    let e = check_code_ops(&twice, "d1", &vec![], &tombs).unwrap_err();
    assert_eq!((e.location.as_str(), e.message.as_str()), ("op3", "duplicate operation identity"));
}

#[test]
fn runtime_code_rejects_duplicate_op_ids_across_functions() {
    let ops = vec![(s("m.shared"), s("m.main")), (s("m.shared"), s("m.other"))];
    let e = check_code_ops(&ops, "code", &vec![], &vec![]).unwrap_err();
    assert_eq!(e.code, "E_DUPLICATE");
}
