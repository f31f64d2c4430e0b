//! The per-cycle decision of the watchdog: from a fresh snapshot, decide
//! whether the watched process is gone, has breached the memory ceiling, or
//! may keep running.

use vstd::prelude::*;
use crate::process::{
    expand, lemma_in_tree_root, lemma_in_tree_step, lemma_map_of_props, map_of, metric_of,
    reaches, seq_has_pid, spec_expand, spec_sum, spec_total, sum_memory, tree_set,
    lemma_sum_bounds, MemMetric, ProcEntry, Snapshot,
};

verus! {

/// The immutable configuration of a watch: the parsed threshold in bytes, the
/// metric to observe, and whether descendants count toward the total.
#[derive(Clone, Copy, Debug, PartialEq, Eq)]
pub struct WatchConfig {
    pub threshold: u64,
    pub metric: MemMetric,
    pub include_descendants: bool,
}

/// What one cycle decides: the watched root vanished before any breach, the
/// observed total breached the ceiling, or the watch stays running. The two
/// memory-carrying outcomes report the observed total in bytes.
#[derive(Clone, Copy, Debug, PartialEq, Eq)]
pub enum CycleOutcome {
    ChildGone,
    Exceeded(u64),
    Running(u64),
}

/// The total one cycle observes: the configured metric summed over the
/// hierarchy the root expands to in this snapshot.
pub open spec fn spec_observed(entries: Seq<ProcEntry>, root: u64, cfg: WatchConfig) -> int {
    spec_sum(entries, spec_expand(map_of(entries), root, cfg.include_descendants), cfg.metric)
}

/// One cycle of the watchdog while it is running. The hierarchy set is
/// recomputed from this snapshot alone: an absent root ends the watch as
/// `ChildGone` with no termination request owed; an observed total above the
/// threshold ends it as `Exceeded`; anything else keeps it `Running`.
pub fn watch_cycle(snap: &Snapshot, root: u64, cfg: &WatchConfig) -> (r: CycleOutcome)
    requires
        snap.wf(),
        spec_total(snap.entries@, cfg.metric) <= u64::MAX,
    ensures
        !snap.as_map().contains_key(root) ==> r == CycleOutcome::ChildGone,
        snap.as_map().contains_key(root) ==> {
            let observed = spec_observed(snap.entries@, root, *cfg);
            &&& 0 <= observed <= u64::MAX
            &&& (observed > cfg.threshold ==> r == CycleOutcome::Exceeded(observed as u64))
            &&& (observed <= cfg.threshold ==> r == CycleOutcome::Running(observed as u64))
        },
{
    match snap.get(root) {
        None => CycleOutcome::ChildGone,
        Some(_) => {
            let hierarchy = expand(snap, root, cfg.include_descendants);
            proof {
                lemma_sum_bounds(snap.entries@, hierarchy@, cfg.metric);
            }
            let observed = sum_memory(snap, &hierarchy, cfg.metric);
            if observed > cfg.threshold {
                CycleOutcome::Exceeded(observed)
            } else {
                CycleOutcome::Running(observed)
            }
        },
    }
}

/// Law: in a snapshot holding a root and its two children, watching the root
/// alone observes the root's own reading, watching with descendants observes
/// the family total, and a threshold that only the family total exceeds lets
/// only the watch with descendants breach.
pub proof fn lemma_root_with_two_children(
    r: ProcEntry,
    c1: ProcEntry,
    c2: ProcEntry,
    metric: MemMetric,
    threshold: u64,
)
    requires
        r.pid != c1.pid,
        r.pid != c2.pid,
        c1.pid != c2.pid,
        c1.parent == Some(r.pid),
        c2.parent == Some(r.pid),
    ensures
        ({
            let entries = seq![r, c1, c2];
            let m = map_of(entries);
            let alone = spec_sum(entries, spec_expand(m, r.pid, false), metric);
            let family = spec_sum(entries, spec_expand(m, r.pid, true), metric);
            &&& alone == metric_of(r, metric)
            &&& family == metric_of(r, metric) + metric_of(c1, metric) + metric_of(c2, metric)
            &&& (alone <= threshold < family ==> !(alone > threshold) && family > threshold)
        }),
{
    let entries = seq![r, c1, c2];
    let m = map_of(entries);
    assert(entries.drop_last() =~= seq![r, c1]);
    assert(seq![r, c1].drop_last() =~= seq![r]);
    assert(seq![r].drop_last() =~= Seq::<ProcEntry>::empty());
    assert(map_of(Seq::<ProcEntry>::empty()) == Map::<u64, ProcEntry>::empty());
    assert(map_of(seq![r]) == Map::<u64, ProcEntry>::empty().insert(r.pid, r));
    assert(map_of(seq![r, c1]) == map_of(seq![r]).insert(c1.pid, c1));
    assert(m == map_of(seq![r, c1]).insert(c2.pid, c2));
    assert(m.contains_key(r.pid) && m[r.pid] == r);
    assert(m.contains_key(c1.pid) && m[c1.pid] == c1);
    assert(m.contains_key(c2.pid) && m[c2.pid] == c2);

    let ts = tree_set(m, r.pid);
    lemma_in_tree_root(m, r.pid);
    lemma_in_tree_step(m, r.pid, c1.pid, r.pid);
    lemma_in_tree_step(m, r.pid, c2.pid, r.pid);
    assert(ts.contains(r.pid) && ts.contains(c1.pid) && ts.contains(c2.pid));
    assert forall|p: u64| ts.contains(p) implies p == r.pid || p == c1.pid || p == c2.pid by {
        let fuel = choose|fuel: nat| #[trigger] reaches(m, r.pid, p, fuel);
        if p != r.pid {
            assert(m.contains_key(p));
        }
    }

    let alone_set = spec_expand(m, r.pid, false);
    assert(alone_set.contains(r.pid) && !alone_set.contains(c1.pid) && !alone_set.contains(c2.pid));

    // unfold the two sums over the three entries
    assert(entries.last() == c2 && seq![r, c1].last() == c1 && seq![r].last() == r);
    assert(spec_sum(Seq::<ProcEntry>::empty(), alone_set, metric) == 0);
    assert(spec_sum(Seq::<ProcEntry>::empty(), ts, metric) == 0);
    assert(spec_sum(seq![r], alone_set, metric) == metric_of(r, metric));
    assert(spec_sum(seq![r, c1], alone_set, metric) == metric_of(r, metric));
    assert(spec_sum(entries, alone_set, metric) == metric_of(r, metric));
    assert(spec_sum(seq![r], ts, metric) == metric_of(r, metric));
    assert(spec_sum(seq![r, c1], ts, metric) == metric_of(r, metric) + metric_of(c1, metric));
    assert(spec_sum(entries, ts, metric) == metric_of(r, metric) + metric_of(c1, metric)
        + metric_of(c2, metric));
}

} // verus!
