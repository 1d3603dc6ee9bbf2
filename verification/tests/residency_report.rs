use nir::residency::{residency_report, ContentLease, LeaseInfo, ResidentBlock};

fn s(x: &str) -> String {
    x.to_string()
}

fn block(digest: &str, bytes: u64, generation: u64) -> ResidentBlock {
    ResidentBlock { digest: s(digest), encoded_bytes: bytes, generation, speculative: false }
}

fn lease(id: u64, owner: &str, gens: &[(&str, u64)]) -> ContentLease {
    ContentLease::new(
        LeaseInfo { id, owner: s(owner), keys: gens.iter().map(|(k, _)| s(k)).collect(), resident_bytes: 0 },
        gens.iter().map(|(k, g)| (s(k), *g)).collect(),
    )
}

#[test]
fn report_counts_current_blocks_pins_and_shared_digests_once() {
    let records = vec![
        (s("code:a"), block("d1", 100, 1)),
        (s("static:a"), block("d2", 50, 2)),
        (s("text:a"), block("d1", 100, 3)),
        (s("old"), block("d3", 70, 9)),
    ];
    let leases = vec![
        lease(1, "scene", &[("code:a", 1), ("static:a", 2)]),
        lease(2, "title", &[("code:a", 1)]),
        lease(3, "gone", &[("old", 9)]),
        lease(4, "stale", &[("static:a", 5)]),
    ];
    let r = residency_report(&records, &vec![9], &leases, 1000);
    assert_eq!(r.resident_blocks, 3);
    assert_eq!(r.pinned_blocks, 2);
    assert_eq!(r.lease_count, 2);
    assert_eq!(r.resident_bytes, 150);
    assert_eq!(r.pinned_bytes, 150);
    assert_eq!(r.unpinned_bytes, 0);
    assert_eq!(r.budget_bytes, 1000);
    assert_eq!(r.leases.iter().map(|l| l.id).collect::<Vec<_>>(), vec![1, 2]);
    assert_eq!(r.blocks.len(), 3);
    assert_eq!(r.blocks[0].key, "code:a");
    assert_eq!(r.blocks[0].pinned_by, vec![s("scene"), s("title")]);
    assert_eq!(r.blocks[1].pinned_by, vec![s("scene")]);
    assert!(r.blocks[2].pinned_by.is_empty());
    assert_eq!(leases[1].info().owner, "title");
}
