use nir::ownership::{assign_ownership, task_owners, ModuleClaims};

fn strings(v: &[&str]) -> Vec<String> {
    v.iter().map(|s| s.to_string()).collect()
}

fn module(id: &str, functions: &[&str], texts: &[&str]) -> (String, ModuleClaims) {
    (id.to_string(), ModuleClaims { functions: strings(functions), texts: strings(texts) })
}

fn pairs(v: &[(&str, &str)]) -> Vec<(String, String)> {
    v.iter().map(|(a, b)| (a.to_string(), b.to_string())).collect()
}

#[test]
fn claims_become_owner_tables() {
    let modules = vec![module("a", &["a.main"], &["a.hello"]), module("b", &["b.end", "b.mid"], &[])];
    let o = assign_ownership(&modules, &strings(&["a.main", "b.mid", "b.end"]), &strings(&["a.hello"])).unwrap();
    assert_eq!(o.function_owners, pairs(&[("a.main", "a"), ("b.end", "b"), ("b.mid", "b")]));
    assert_eq!(o.text_owners, pairs(&[("a.hello", "a")]));
}

#[test]
fn module_without_functions_is_refused() {
    let modules = vec![module("a", &[], &[])];
    let e = assign_ownership(&modules, &vec![], &vec![]).unwrap_err();
    assert_eq!(e, "E_MODULE: a has an empty identity or function interface");
}

#[test]
fn claim_of_a_missing_function_is_refused() {
    let modules = vec![module("a", &["a.ghost"], &[])];
    let e = assign_ownership(&modules, &strings(&["a.main"]), &vec![]).unwrap_err();
    assert_eq!(e, "E_MODULE: a owns missing function a.ghost");
}

#[test]
fn function_claimed_twice_is_refused() {
    let modules = vec![module("a", &["main"], &[]), module("b", &["main"], &[])];
    let e = assign_ownership(&modules, &strings(&["main"]), &vec![]).unwrap_err();
    assert_eq!(e, "E_MODULE: invalid or duplicate function ownership for main");
}

#[test]
fn text_claimed_twice_or_missing_is_refused() {
    let modules = vec![module("a", &["a.main"], &["t"]), module("b", &["b.main"], &["t"])];
    let e = assign_ownership(&modules, &strings(&["a.main", "b.main"]), &strings(&["t"])).unwrap_err();
    assert_eq!(e, "E_MODULE: invalid or duplicate text ownership for t");
    let modules = vec![module("a", &["a.main"], &["u"])];
    let e = assign_ownership(&modules, &strings(&["a.main"]), &strings(&["t"])).unwrap_err();
    assert_eq!(e, "E_MODULE: invalid or duplicate text ownership for u");
}

#[test]
fn unowned_function_or_text_is_refused() {
    let modules = vec![module("a", &["a.main"], &[])];
    let e = assign_ownership(&modules, &strings(&["a.main", "a.other"]), &vec![]).unwrap_err();
    assert_eq!(e, "E_MODULE: module indexes do not own every function and text contract");
    let e = assign_ownership(&modules, &strings(&["a.main"]), &strings(&["t"])).unwrap_err();
    assert_eq!(e, "E_MODULE: module indexes do not own every function and text contract");
}

#[test]
fn tasks_take_the_owner_of_their_cue() {
    let cues = vec![
        ("a.open".to_string(), strings(&["music", "stage"])),
        ("a.close".to_string(), strings(&["music"])),
        ("b.open".to_string(), strings(&["voice"])),
    ];
    let owners = pairs(&[("a.open", "a"), ("a.close", "a"), ("b.open", "b")]);
    let o = task_owners(&cues, &owners).unwrap();
    assert_eq!(o, pairs(&[("music", "a"), ("stage", "a"), ("voice", "b")]));
}

#[test]
fn task_of_two_owners_is_refused() {
    let cues = vec![("a.open".to_string(), strings(&["music"])), ("b.open".to_string(), strings(&["music"]))];
    let owners = pairs(&[("a.open", "a"), ("b.open", "b")]);
    assert_eq!(task_owners(&cues, &owners).unwrap_err(), "E_TASK_OWNER: duplicate task music");
}
