use memlimit::process::{expand, sum_memory, MemMetric, PidSet, ProcEntry, Snapshot};
use memlimit::watchdog::{watch_cycle, CycleOutcome, WatchConfig};

fn entry(pid: u64, parent: Option<u64>, resident: u64, virt: u64) -> ProcEntry {
    ProcEntry { pid, parent, resident_bytes: resident, virtual_bytes: virt }
}

fn snapshot(entries: Vec<ProcEntry>) -> Snapshot {
    Snapshot::from_entries(entries).expect("pids are distinct")
}

fn sorted_ids(s: &PidSet) -> Vec<u64> {
    let mut v = s.ids.clone();
    v.sort();
    v
}

#[test]
fn test_expand_root_alone() {
    let snap = snapshot(vec![entry(1, None, 10, 20), entry(2, Some(1), 30, 40)]);
    let set = expand(&snap, 1, false);
    assert_eq!(sorted_ids(&set), vec![1]);
}

#[test]
fn test_expand_finds_grandchildren() {
    let snap = snapshot(vec![
        entry(5, Some(4), 1, 1),
        entry(1, None, 1, 1),
        entry(4, Some(2), 1, 1),
        entry(2, Some(1), 1, 1),
        entry(3, Some(2), 1, 1),
        entry(9, None, 1, 1),
    ]);
    let set = expand(&snap, 1, true);
    assert_eq!(sorted_ids(&set), vec![1, 2, 3, 4, 5]);
}

#[test]
fn test_expand_child_listed_before_parent() {
    // the fixed point must not depend on parents preceding children
    let snap = snapshot(vec![
        entry(3, Some(2), 1, 1),
        entry(2, Some(1), 1, 1),
        entry(1, None, 1, 1),
    ]);
    let set = expand(&snap, 1, true);
    assert_eq!(sorted_ids(&set), vec![1, 2, 3]);
}

#[test]
fn test_expand_order_invariance() {
    let forward = vec![
        entry(1, None, 1, 1),
        entry(2, Some(1), 1, 1),
        entry(3, Some(2), 1, 1),
        entry(4, Some(7), 1, 1),
    ];
    let mut backward = forward.clone();
    backward.reverse();
    let a = expand(&snapshot(forward), 1, true);
    let b = expand(&snapshot(backward), 1, true);
    assert_eq!(sorted_ids(&a), sorted_ids(&b));
}

#[test]
fn test_expand_ignores_unrelated_cycle() {
    // 7 and 8 point at each other; neither descends from the root
    let snap = snapshot(vec![
        entry(1, None, 1, 1),
        entry(7, Some(8), 1, 1),
        entry(8, Some(7), 1, 1),
    ]);
    let set = expand(&snap, 1, true);
    assert_eq!(sorted_ids(&set), vec![1]);
}

#[test]
fn test_expand_dangling_parent() {
    // 6's parent is not a key of the table and never matches
    let snap = snapshot(vec![entry(1, None, 1, 1), entry(6, Some(42), 1, 1)]);
    let set = expand(&snap, 1, true);
    assert_eq!(sorted_ids(&set), vec![1]);
}

#[test]
fn test_expand_root_absent_still_collects_children() {
    // children of a vanished root are still its hierarchy
    let snap = snapshot(vec![entry(2, Some(1), 1, 1), entry(3, Some(2), 1, 1)]);
    let set = expand(&snap, 1, true);
    assert_eq!(sorted_ids(&set), vec![1, 2, 3]);
}

#[test]
fn test_from_entries_rejects_duplicate_pids() {
    assert!(Snapshot::from_entries(vec![entry(1, None, 1, 1), entry(1, None, 2, 2)]).is_none());
}

#[test]
fn test_sum_selects_metric() {
    let snap = snapshot(vec![entry(1, None, 100, 1000), entry(2, Some(1), 40, 400)]);
    let set = expand(&snap, 1, true);
    assert_eq!(sum_memory(&snap, &set, MemMetric::Resident), 140);
    assert_eq!(sum_memory(&snap, &set, MemMetric::Virtual), 1400);
}

#[test]
fn test_sum_ignores_ids_raced_out_of_the_table() {
    let snap = snapshot(vec![entry(1, None, 100, 1000)]);
    let stale = PidSet { ids: vec![1, 99] };
    assert_eq!(sum_memory(&snap, &stale, MemMetric::Resident), 100);
}

#[test]
fn test_family_breach_only_with_descendants() {
    // root uses 100, children 40 and 60; threshold 150 sits strictly between
    let entries = vec![
        entry(1, None, 100, 0),
        entry(2, Some(1), 40, 0),
        entry(3, Some(1), 60, 0),
    ];
    let snap = snapshot(entries);
    let alone = WatchConfig { threshold: 150, metric: MemMetric::Resident, include_descendants: false };
    let family = WatchConfig { threshold: 150, metric: MemMetric::Resident, include_descendants: true };
    assert_eq!(watch_cycle(&snap, 1, &alone), CycleOutcome::Running(100));
    assert_eq!(watch_cycle(&snap, 1, &family), CycleOutcome::Exceeded(200));
}

#[test]
fn test_child_gone_when_root_vanishes() {
    let snap = snapshot(vec![entry(2, None, 1, 1)]);
    let cfg = WatchConfig { threshold: 0, metric: MemMetric::Resident, include_descendants: true };
    assert_eq!(watch_cycle(&snap, 1, &cfg), CycleOutcome::ChildGone);
}

#[test]
fn test_running_at_exact_threshold() {
    // the ceiling must be exceeded strictly, not merely reached
    let snap = snapshot(vec![entry(1, None, 100, 0)]);
    let cfg = WatchConfig { threshold: 100, metric: MemMetric::Resident, include_descendants: false };
    assert_eq!(watch_cycle(&snap, 1, &cfg), CycleOutcome::Running(100));
}
