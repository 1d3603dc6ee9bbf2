use nir::residency::{
    check_batch, eviction_candidates, lru_rank, plan_eviction, resident_bytes, ResidentBlock, ResidentMeta, UsageStamp,
};

fn meta(digest: &str, bytes: u64, rank: u8, age: u64, evictable: bool) -> ResidentMeta {
    ResidentMeta { digest: digest.to_string(), bytes, rank, age, evictable }
}

#[test]
fn unused_speculative_blocks_rank_first() {
    let stamp = UsageStamp { last_used: None, speculative: true, admitted: 7 };
    assert_eq!(lru_rank(Some(stamp), true), (0, 7));
    let used = UsageStamp { last_used: Some(9), speculative: true, admitted: 7 };
    assert_eq!(lru_rank(Some(used), true), (1, 9));
    assert_eq!(lru_rank(None, true), (1, 0));
}

#[test]
fn batch_checks_keys_and_sizes() {
    let ok = vec![("a".to_string(), 10u64), ("b".to_string(), 20)];
    assert!(check_batch(&ok).is_ok());
    let dup = vec![("a".to_string(), 10u64), ("a".to_string(), 20)];
    let d = check_batch(&dup).unwrap_err();
    assert_eq!((d.code.as_str(), d.location.as_str(), d.message.as_str()), ("E_DUPLICATE", "a", "duplicate content key"));
    let empty = vec![("a".to_string(), 0u64)];
    assert_eq!(check_batch(&empty).unwrap_err().message, "content block size is outside 1..16 MiB");
    let big = vec![("a".to_string(), 10_000_000u64), ("b".to_string(), 10_000_000)];
    assert_eq!(check_batch(&big).unwrap_err().message, "content batch exceeds 16 MiB");
    let many: Vec<(String, u64)> = (0..129).map(|i| (format!("k{i}"), 1u64)).collect();
    assert_eq!(check_batch(&many).unwrap_err().message, "content batch has more than 128 blocks");
}

#[test]
fn shared_digests_count_once() {
    let rs = vec![meta("d", 5, 1, 0, true), meta("d", 5, 1, 0, true), meta("e", 3, 1, 0, true)];
    assert_eq!(resident_bytes(&rs, &vec![true, true, true]), 8);
    assert_eq!(resident_bytes(&rs, &vec![false, true, true]), 8);
    assert_eq!(resident_bytes(&rs, &vec![false, false, true]), 3);
}

#[test]
fn fitting_set_evicts_nothing() {
    let rs = vec![meta("a", 5, 1, 0, true), meta("b", 5, 1, 0, true)];
    assert_eq!(plan_eviction(&rs, 10, false).unwrap(), vec![true, true]);
}

#[test]
fn over_budget_without_leave_is_refused() {
    let rs = vec![meta("a", 5, 1, 0, true), meta("b", 6, 1, 0, true)];
    assert_eq!(plan_eviction(&rs, 10, false).unwrap_err().message, "content exceeds residency budget");
}

#[test]
fn eviction_follows_rank_then_age_and_spares_pinned_blocks() {
    let rs = vec![
        meta("old", 4, 1, 1, true),
        meta("pinned", 4, 1, 0, false),
        meta("fresh", 4, 1, 9, true),
        meta("spec", 4, 0, 50, true),
    ];
    assert_eq!(plan_eviction(&rs, 12, true).unwrap(), vec![true, true, true, false]);
    assert_eq!(plan_eviction(&rs, 8, true).unwrap(), vec![false, true, true, false]);
    assert_eq!(plan_eviction(&rs, 4, true).unwrap(), vec![false, true, false, false]);
    assert_eq!(plan_eviction(&rs, 3, true).unwrap_err().message, "resident and pinned content exceeds budget");
}

#[test]
fn candidates_mark_incoming_and_pinned_blocks() {
    let block = |d: &str, g: u64| ResidentBlock { digest: d.to_string(), encoded_bytes: 3, generation: g, speculative: false };
    let records = vec![("a".to_string(), block("x", 1)), ("b".to_string(), block("y", 2)), ("c".to_string(), block("z", 3))];
    let usage = vec![(3u64, UsageStamp { last_used: Some(11), speculative: false, admitted: 2 })];
    let c = eviction_candidates(&records, &vec!["a".to_string()], &vec![2], &usage);
    let flags: Vec<bool> = c.iter().map(|m| m.evictable).collect();
    assert_eq!(flags, vec![false, false, true]);
    assert_eq!((c[2].rank, c[2].age, c[2].bytes), (1, 11, 3));
    assert_eq!(c[0].digest, "x");
}

#[test]
fn unused_prefetched_blocks_rank_before_used_ones() {
    let prefetched = UsageStamp { last_used: None, speculative: true, admitted: 900 };
    let used = UsageStamp { last_used: Some(1), speculative: true, admitted: 0 };
    assert!(lru_rank(Some(prefetched), true) < lru_rank(Some(used), true));
    assert!(lru_rank(Some(prefetched), true) < lru_rank(None, false));
}
