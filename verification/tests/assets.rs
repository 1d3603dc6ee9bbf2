use nir::assets::{BudgetLedger, Generation, PrepareJob};

#[test]
fn joint_admission_and_drop() {
    let mut l = BudgetLedger::new(100);
    let a = l.reserve(&vec![("a".to_string(), 60)]).unwrap();
    assert!(l.reserve(&vec![("b".to_string(), 60)]).is_err());
    assert_eq!(l.used(), 60);
    let b = l.reserve(&vec![("a".to_string(), 60)]).unwrap();
    l.release(a);
    assert_eq!(l.used(), 60);
    l.release(b);
    assert_eq!(l.used(), 0);
}

#[test]
fn stale_generation_not_ready() {
    let g = Generation {
        session: 1,
        device: 1,
        surface: 1,
        typography: 1,
        language: 1,
    };
    let mut ledger = BudgetLedger::new(100);
    let mut j = PrepareJob::new(1, g, vec![("a".to_string(), 1)], &mut ledger).unwrap();
    let mut old = g;
    old.device = 0;
    assert!(!j.ready("a", old));
    assert!(j.finish(&mut ledger).is_err());
}

#[test]
fn over_budget_message_names_need_and_room() {
    let mut l = BudgetLedger::new(100);
    let _a = l.reserve(&vec![("a".to_string(), 70)]).unwrap();
    let e = l.reserve(&vec![("b".to_string(), 40), ("c".to_string(), 5)]).err().unwrap();
    assert_eq!(e.code, "E_BUDGET");
    assert_eq!(e.location, "reserve");
    assert_eq!(e.message, "requires 45 bytes; 30 available");
    assert_eq!(l.used(), 70);
    assert_eq!(l.pins(), 1);
}

#[test]
fn cost_overflow_is_refused() {
    let mut l = BudgetLedger::new(u64::MAX);
    let e = l
        .reserve(&vec![("a".to_string(), u64::MAX), ("b".to_string(), 1)])
        .err()
        .unwrap();
    assert_eq!(e.message, "cost overflow");
    assert_eq!(l.used(), 0);
}

#[test]
fn reserve_then_release_restores_ledger() {
    let mut l = BudgetLedger::new(100);
    let first = l.reserve(&vec![("a".to_string(), 10)]).unwrap();
    let r = l
        .reserve(&vec![("a".to_string(), 10), ("b".to_string(), 20)])
        .unwrap();
    assert_eq!(l.used(), 30);
    assert_eq!(l.pins(), 3);
    l.release(r);
    assert_eq!(l.used(), 10);
    assert_eq!(l.pins(), 1);
    l.release(first);
    assert_eq!(l.used(), 0);
    assert_eq!(l.pins(), 0);
}

#[test]
fn ready_job_becomes_lease() {
    let g = Generation {
        session: 2,
        device: 3,
        surface: 4,
        typography: 5,
        language: 6,
    };
    let mut ledger = BudgetLedger::new(50);
    let mut j = PrepareJob::new(
        7,
        g,
        vec![("x".to_string(), 10), ("y".to_string(), 15)],
        &mut ledger,
    )
    .unwrap();
    assert!(j.ready("x", g));
    assert!(!j.ready("x", g));
    assert!(j.ready("y", g));
    let lease = j.finish(&mut ledger).unwrap();
    assert!(lease.valid(7, g));
    assert!(!lease.valid(8, g));
    assert_eq!(lease.assets().len(), 2);
    assert_eq!(ledger.used(), 25);
    lease.release(&mut ledger);
    assert_eq!(ledger.used(), 0);
}
