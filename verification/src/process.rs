//! The process-table model: a point-in-time snapshot of processes, expansion
//! of a watched root into the set of its descendants, and aggregation of a
//! memory metric over such a set.

use vstd::prelude::*;
use vstd::set_lib::lemma_len_subset;
use vstd::seq_lib::group_to_multiset_ensures;

verus! {

broadcast use vstd::set::group_set_axioms;

/// One process of a snapshot: its id, its parent's id as the table records
/// it, and its two memory readings in bytes.
#[derive(Clone, Copy, Debug, PartialEq, Eq)]
pub struct ProcEntry {
    pub pid: u64,
    pub parent: Option<u64>,
    pub resident_bytes: u64,
    pub virtual_bytes: u64,
}

/// The memory metric under watch.
#[derive(Clone, Copy, Debug, PartialEq, Eq)]
pub enum MemMetric {
    Resident,
    Virtual,
}

/// The chosen metric's reading of one entry.
pub open spec fn metric_of(e: ProcEntry, metric: MemMetric) -> u64 {
    match metric {
        MemMetric::Resident => e.resident_bytes,
        MemMetric::Virtual => e.virtual_bytes,
    }
}

/// No two entries name the same process id.
pub open spec fn unique_pids(entries: Seq<ProcEntry>) -> bool {
    forall|i: int, j: int|
        0 <= i < j < entries.len() ==> (#[trigger] entries[i]).pid != (#[trigger] entries[j]).pid
}

/// The entries as a table keyed by process id.
pub open spec fn map_of(entries: Seq<ProcEntry>) -> Map<u64, ProcEntry>
    decreases entries.len(),
{
    if entries.len() == 0 {
        Map::empty()
    } else {
        map_of(entries.drop_last()).insert(entries.last().pid, entries.last())
    }
}

/// Some entry carries this process id.
pub open spec fn seq_has_pid(entries: Seq<ProcEntry>, p: u64) -> bool {
    exists|i: int| 0 <= i < entries.len() && (#[trigger] entries[i]).pid == p
}

/// What `map_of` holds: its keys are exactly the entries' ids, and under
/// unique ids each entry stands at its own id.
pub proof fn lemma_map_of_props(entries: Seq<ProcEntry>)
    ensures
        map_of(entries).dom().finite(),
        map_of(entries).dom().len() <= entries.len(),
        forall|p: u64| #[trigger] map_of(entries).contains_key(p) <==> seq_has_pid(entries, p),
        unique_pids(entries) ==> forall|i: int|
            0 <= i < entries.len() ==> map_of(entries)[(#[trigger] entries[i]).pid] == entries[i],
    decreases entries.len(),
{
    if entries.len() == 0 {
    } else {
        let prefix = entries.drop_last();
        lemma_map_of_props(prefix);
        assert forall|p: u64| #[trigger] map_of(entries).contains_key(p) implies seq_has_pid(
            entries,
            p,
        ) by {
            if p == entries.last().pid {
                assert((#[trigger] entries[entries.len() - 1]).pid == p);
            } else {
                let i = choose|i: int| 0 <= i < prefix.len() && (#[trigger] prefix[i]).pid == p;
                assert((#[trigger] entries[i]).pid == p);
            }
        }
        assert forall|p: u64| seq_has_pid(entries, p) implies #[trigger] map_of(
            entries,
        ).contains_key(p) by {
            let i = choose|i: int| 0 <= i < entries.len() && (#[trigger] entries[i]).pid == p;
            if i < entries.len() - 1 {
                assert((#[trigger] prefix[i]).pid == p);
            }
        }
        if unique_pids(entries) {
            assert(unique_pids(prefix));
            assert forall|i: int| 0 <= i < entries.len() implies map_of(entries)[(
            #[trigger] entries[i]).pid] == entries[i] by {
                if i < entries.len() - 1 {
                    assert(prefix[i] == entries[i]);
                    assert(entries[i].pid != entries.last().pid);
                }
            }
        }
    }
}

/// Two snapshots that hold the same entries, in whatever order, are the same
/// table.
pub proof fn lemma_map_of_permutation(e1: Seq<ProcEntry>, e2: Seq<ProcEntry>)
    requires
        unique_pids(e1),
        unique_pids(e2),
        e1.to_multiset() == e2.to_multiset(),
    ensures
        map_of(e1) == map_of(e2),
{
    broadcast use group_to_multiset_ensures;

    lemma_map_of_props(e1);
    lemma_map_of_props(e2);
    assert forall|p: u64| map_of(e1).contains_key(p) implies map_of(e2).contains_key(p)
        && map_of(e1)[p] == map_of(e2)[p] by {
        let i = choose|i: int| 0 <= i < e1.len() && (#[trigger] e1[i]).pid == p;
        assert(e1.contains(e1[i]));
        assert(e1.to_multiset().count(e1[i]) > 0);
        assert(e2.contains(e1[i]));
        let j = choose|j: int| 0 <= j < e2.len() && e2[j] == e1[i];
        assert((#[trigger] e2[j]).pid == p);
    }
    assert forall|p: u64| map_of(e2).contains_key(p) implies map_of(e1).contains_key(p) by {
        let j = choose|j: int| 0 <= j < e2.len() && (#[trigger] e2[j]).pid == p;
        assert(e2.contains(e2[j]));
        assert(e2.to_multiset().count(e2[j]) > 0);
        assert(e1.contains(e2[j]));
        let i = choose|i: int| 0 <= i < e1.len() && e1[i] == e2[j];
        assert((#[trigger] e1[i]).pid == p);
    }
    assert(map_of(e1) =~= map_of(e2));
}

/// `pid` reaches `root` over at most `fuel` recorded parent links.
pub open spec fn reaches(m: Map<u64, ProcEntry>, root: u64, pid: u64, fuel: nat) -> bool
    decreases fuel,
{
    pid == root || (fuel > 0 && m.contains_key(pid) && match m[pid].parent {
        Some(q) => reaches(m, root, q, (fuel - 1) as nat),
        None => false,
    })
}

/// `pid` belongs to the hierarchy rooted at `root` in table `m`: it is the
/// root itself, or a recorded process whose parent chain leads to the root.
pub open spec fn in_tree(m: Map<u64, ProcEntry>, root: u64, pid: u64) -> bool {
    exists|fuel: nat| #[trigger] reaches(m, root, pid, fuel)
}

/// Every process of the hierarchy rooted at `root`.
pub open spec fn tree_set(m: Map<u64, ProcEntry>, root: u64) -> Set<u64> {
    Set::new(|pid: u64| in_tree(m, root, pid))
}

/// The hierarchy a cycle watches: the root alone, or the root's whole tree.
pub open spec fn spec_expand(m: Map<u64, ProcEntry>, root: u64, include_descendants: bool) -> Set<
    u64,
> {
    if include_descendants {
        tree_set(m, root)
    } else {
        Set::empty().insert(root)
    }
}

/// The root belongs to its own tree, present in the table or not.
pub proof fn lemma_in_tree_root(m: Map<u64, ProcEntry>, root: u64)
    ensures
        in_tree(m, root, root),
{
    assert(reaches(m, root, root, 0));
}

/// A recorded process whose parent is in the tree is in the tree.
pub proof fn lemma_in_tree_step(m: Map<u64, ProcEntry>, root: u64, pid: u64, parent: u64)
    requires
        m.contains_key(pid),
        m[pid].parent == Some(parent),
        in_tree(m, root, parent),
    ensures
        in_tree(m, root, pid),
{
    let fuel = choose|fuel: nat| #[trigger] reaches(m, root, parent, fuel);
    assert(reaches(m, root, pid, fuel + 1));
}

/// A recorded process with its recorded parent in `s`.
pub open spec fn parent_in(m: Map<u64, ProcEntry>, s: Set<u64>, pid: u64) -> bool {
    m.contains_key(pid) && match m[pid].parent {
        Some(q) => s.contains(q),
        None => false,
    }
}

/// `s` is closed under the child rule: any recorded process whose parent is a
/// member is a member.
pub open spec fn closed_under_children(m: Map<u64, ProcEntry>, s: Set<u64>) -> bool {
    forall|pid: u64| #[trigger] parent_in(m, s, pid) ==> s.contains(pid)
}

/// Whatever reaches the root lies in any closed set that holds the root.
pub proof fn lemma_reaches_member(
    m: Map<u64, ProcEntry>,
    root: u64,
    s: Set<u64>,
    pid: u64,
    fuel: nat,
)
    requires
        reaches(m, root, pid, fuel),
        s.contains(root),
        closed_under_children(m, s),
    ensures
        s.contains(pid),
    decreases fuel,
{
    if pid != root {
        match m[pid].parent {
            Some(q) => {
                lemma_reaches_member(m, root, s, q, (fuel - 1) as nat);
                assert(parent_in(m, s, pid));
            },
            None => {},
        }
    }
}

/// A closed set of tree members that holds the root is exactly the tree.
pub proof fn lemma_closed_is_tree(m: Map<u64, ProcEntry>, root: u64, s: Set<u64>)
    requires
        s.contains(root),
        closed_under_children(m, s),
        forall|p: u64| #[trigger] s.contains(p) ==> in_tree(m, root, p),
    ensures
        s == tree_set(m, root),
{
    assert forall|p: u64| tree_set(m, root).contains(p) implies s.contains(p) by {
        let fuel = choose|fuel: nat| #[trigger] reaches(m, root, p, fuel);
        lemma_reaches_member(m, root, s, p, fuel);
    }
    assert(s =~= tree_set(m, root));
}

/// A set of process ids, rebuilt from scratch each cycle.
pub struct PidSet {
    pub ids: Vec<u64>,
}

impl View for PidSet {
    type V = Set<u64>;

    open spec fn view(&self) -> Set<u64> {
        self.ids@.to_set()
    }
}

impl PidSet {
    /// No id twice.
    pub open spec fn wf(&self) -> bool {
        self.ids@.no_duplicates()
    }

    pub fn new() -> (r: PidSet)
        ensures
            r.wf(),
            r@ == Set::<u64>::empty(),
            r.ids@.len() == 0,
    {
        let r = PidSet { ids: Vec::new() };
        proof {
            assert(r@ =~= Set::<u64>::empty());
        }
        r
    }

    pub fn contains(&self, p: u64) -> (r: bool)
        ensures
            r == self@.contains(p),
    {
        let mut i: usize = 0;
        while i < self.ids.len()
            invariant
                i <= self.ids@.len(),
                forall|k: int| 0 <= k < i ==> self.ids@[k] != p,
            decreases self.ids@.len() - i,
        {
            if self.ids[i] == p {
                return true;
            }
            i = i + 1;
        }
        false
    }

    /// Adds an id that is not yet a member.
    pub fn insert(&mut self, p: u64)
        requires
            old(self).wf(),
            !old(self)@.contains(p),
        ensures
            final(self).wf(),
            final(self)@ == old(self)@.insert(p),
            final(self).ids@ == old(self).ids@.push(p),
            final(self)@.len() == old(self)@.len() + 1,
            final(self).ids@.len() == old(self).ids@.len() + 1,
    {
        proof {
            old(self).ids@.unique_seq_to_set();
        }
        self.ids.push(p);
        proof {
            assert forall|x: u64| self.ids@.contains(x) implies old(self).ids@.contains(x) || x
                == p by {
                let i = choose|i: int| 0 <= i < self.ids@.len() && self.ids@[i] == x;
                if i < old(self).ids@.len() {
                    assert(old(self).ids@[i] == x);
                }
            }
            assert forall|x: u64| old(self).ids@.contains(x) implies self.ids@.contains(x) by {
                let i = choose|i: int| 0 <= i < old(self).ids@.len() && old(self).ids@[i] == x;
                assert(self.ids@[i] == x);
            }
            assert(self.ids@[self.ids@.len() - 1] == p);
            assert(self@ =~= old(self)@.insert(p));
            self.ids@.unique_seq_to_set();
        }
    }

    pub fn len(&self) -> (r: usize)
        ensures
            r == self.ids@.len(),
    {
        self.ids.len()
    }
}

/// A point-in-time process table: entries with pairwise distinct ids, mapping
/// each live process to its parent and its memory readings.
pub struct Snapshot {
    pub entries: Vec<ProcEntry>,
}

impl Snapshot {
    /// Each process id appears at most once.
    pub open spec fn wf(&self) -> bool {
        unique_pids(self.entries@)
    }

    /// The snapshot as a table keyed by process id.
    pub open spec fn as_map(&self) -> Map<u64, ProcEntry> {
        map_of(self.entries@)
    }

    /// Wraps a list of process entries, refusing one that names an id twice.
    pub fn from_entries(entries: Vec<ProcEntry>) -> (r: Option<Snapshot>)
        ensures
            match r {
                Some(s) => s.wf() && s.entries@ == entries@,
                None => !unique_pids(entries@),
            },
    {
        let n = entries.len();
        let mut i: usize = 0;
        while i < n
            invariant
                i <= n,
                n == entries@.len(),
                forall|a: int, b: int|
                    0 <= a < b < i ==> (#[trigger] entries@[a]).pid != (
                    #[trigger] entries@[b]).pid,
            decreases n - i,
        {
            let mut j: usize = 0;
            while j < i
                invariant
                    j <= i < n,
                    n == entries@.len(),
                    forall|k: int| 0 <= k < j ==> (#[trigger] entries@[k]).pid != entries@[i as int].pid,
                decreases i - j,
            {
                if entries[j].pid == entries[i].pid {
                    return None;
                }
                j = j + 1;
            }
            i = i + 1;
        }
        Some(Snapshot { entries })
    }

    /// The entry recorded at `pid`, if the table holds one.
    pub fn get(&self, pid: u64) -> (r: Option<&ProcEntry>)
        requires
            self.wf(),
        ensures
            match r {
                Some(e) => self.as_map().contains_key(pid) && *e == self.as_map()[pid] && e.pid
                    == pid,
                None => !self.as_map().contains_key(pid),
            },
    {
        proof {
            lemma_map_of_props(self.entries@);
        }
        let mut i: usize = 0;
        while i < self.entries.len()
            invariant
                self.wf(),
                i <= self.entries@.len(),
                forall|k: int| 0 <= k < i ==> (#[trigger] self.entries@[k]).pid != pid,
            decreases self.entries@.len() - i,
        {
            if self.entries[i].pid == pid {
                proof {
                    lemma_map_of_props(self.entries@);
                    assert((#[trigger] self.entries@[i as int]).pid == pid);
                    assert(seq_has_pid(self.entries@, pid));
                    assert(self.as_map()[self.entries@[i as int].pid] == self.entries@[i as int]);
                }
                return Some(&self.entries[i]);
            }
            i = i + 1;
        }
        assert(!seq_has_pid(self.entries@, pid));
        None
    }
}

/// Expands the watched root into this cycle's hierarchy set: the root alone,
/// or, with descendants included, the fixed point of "add any process whose
/// recorded parent is already a member", reached by rescanning the whole
/// table until one full scan adds nothing.
pub fn expand(snap: &Snapshot, root: u64, include_descendants: bool) -> (r: PidSet)
    requires
        snap.wf(),
    ensures
        r.wf(),
        r@ == spec_expand(snap.as_map(), root, include_descendants),
{
    let ghost m = snap.as_map();
    let mut set = PidSet::new();
    set.insert(root);
    if !include_descendants {
        proof {
            assert(set@ =~= Set::<u64>::empty().insert(root));
        }
        return set;
    }
    let ghost allowed = m.dom().insert(root);
    proof {
        lemma_map_of_props(snap.entries@);
        lemma_in_tree_root(m, root);
        set.ids@.unique_seq_to_set();
        lemma_len_subset(set@, allowed);
    }
    let n = snap.entries.len();
    loop
        invariant
            snap.wf(),
            m == snap.as_map(),
            allowed == m.dom().insert(root),
            allowed.finite(),
            allowed.len() <= snap.entries@.len() + 1,
            n == snap.entries@.len(),
            set.wf(),
            set@.contains(root),
            set@.subset_of(allowed),
            set@.len() == set.ids@.len(),
            set@.len() <= allowed.len(),
            forall|p: u64| #[trigger] set@.contains(p) ==> in_tree(m, root, p),
        ensures
            set.wf(),
            set@ == tree_set(m, root),
        decreases allowed.len() - set@.len(),
    {
        let ghost start_ids = set.ids@;
        let mut changed = false;
        let mut i: usize = 0;
        while i < n
            invariant
                snap.wf(),
                m == snap.as_map(),
                allowed == m.dom().insert(root),
                allowed.finite(),
                allowed.len() <= snap.entries@.len() + 1,
                n == snap.entries@.len(),
                set.wf(),
                set@.contains(root),
                set@.subset_of(allowed),
                set@.len() == set.ids@.len(),
                set@.len() <= allowed.len(),
                forall|p: u64| #[trigger] set@.contains(p) ==> in_tree(m, root, p),
                i <= n,
                !changed ==> set.ids@ == start_ids,
                changed ==> set.ids@.len() > start_ids.len(),
                !changed ==> forall|k: int|
                    0 <= k < i ==> match (#[trigger] snap.entries@[k]).parent {
                        Some(q) => set@.contains(q) ==> set@.contains(snap.entries@[k].pid),
                        None => true,
                    },
            decreases n - i,
        {
            let e = snap.entries[i];
            let add = match e.parent {
                Some(par) => set.contains(par) && !set.contains(e.pid),
                None => false,
            };
            if add {
                proof {
                    lemma_map_of_props(snap.entries@);
                    assert(seq_has_pid(snap.entries@, e.pid));
                    assert(m.contains_key(e.pid));
                    assert(m[e.pid] == e);
                    let par = choose|q: u64| e.parent == Some(q);
                    lemma_in_tree_step(m, root, e.pid, par);
                    // a fresh member keeps the set inside `allowed`, strictly
                    assert(set@.subset_of(allowed.remove(e.pid)));
                    lemma_len_subset(set@, allowed.remove(e.pid));
                }
                set.insert(e.pid);
                changed = true;
                proof {
                    assert(set@.subset_of(allowed));
                }
            }
            i = i + 1;
        }
        if !changed {
            proof {
                lemma_map_of_props(snap.entries@);
                assert forall|pid: u64| #[trigger] parent_in(m, set@, pid) implies set@.contains(
                    pid,
                ) by {
                    let k = choose|k: int|
                        0 <= k < snap.entries@.len() && (#[trigger] snap.entries@[k]).pid == pid;
                    assert(m[pid] == snap.entries@[k]);
                }
                lemma_closed_is_tree(m, root, set@);
            }
            break;
        }
    }
    set
}

/// The chosen metric summed over the members of `ids`, in the order the
/// entries stand; an id of `ids` with no entry contributes nothing.
pub open spec fn spec_sum(entries: Seq<ProcEntry>, ids: Set<u64>, metric: MemMetric) -> int
    decreases entries.len(),
{
    if entries.len() == 0 {
        0
    } else {
        spec_sum(entries.drop_last(), ids, metric) + if ids.contains(entries.last().pid) {
            metric_of(entries.last(), metric) as int
        } else {
            0
        }
    }
}

/// The chosen metric summed over every entry of the snapshot.
pub open spec fn spec_total(entries: Seq<ProcEntry>, metric: MemMetric) -> int
    decreases entries.len(),
{
    if entries.len() == 0 {
        0
    } else {
        spec_total(entries.drop_last(), metric) + metric_of(entries.last(), metric) as int
    }
}

/// A selective sum is at least zero and at most the whole table's total.
pub proof fn lemma_sum_bounds(entries: Seq<ProcEntry>, ids: Set<u64>, metric: MemMetric)
    ensures
        0 <= spec_sum(entries, ids, metric) <= spec_total(entries, metric),
    decreases entries.len(),
{
    if entries.len() > 0 {
        lemma_sum_bounds(entries.drop_last(), ids, metric);
    }
}

/// A prefix of the table totals at most the whole table.
pub proof fn lemma_total_prefix_le(entries: Seq<ProcEntry>, j: int, metric: MemMetric)
    requires
        0 <= j <= entries.len(),
    ensures
        spec_total(entries.subrange(0, j), metric) <= spec_total(entries, metric),
    decreases entries.len() - j,
{
    if j == entries.len() {
        assert(entries.subrange(0, j) =~= entries);
    } else {
        let shorter = entries.subrange(0, j);
        let longer = entries.subrange(0, j + 1);
        assert(longer.drop_last() =~= shorter);
        assert(longer.last() == entries[j]);
        lemma_total_prefix_le(entries, j + 1, metric);
    }
}

/// Sums the chosen metric over every id of `ids` still present in the
/// snapshot; ids that raced out of the table contribute zero.
pub fn sum_memory(snap: &Snapshot, ids: &PidSet, metric: MemMetric) -> (r: u64)
    requires
        spec_total(snap.entries@, metric) <= u64::MAX,
    ensures
        r == spec_sum(snap.entries@, ids@, metric),
{
    let n = snap.entries.len();
    let mut acc: u64 = 0;
    let mut i: usize = 0;
    while i < n
        invariant
            i <= n,
            n == snap.entries@.len(),
            spec_total(snap.entries@, metric) <= u64::MAX,
            acc == spec_sum(snap.entries@.subrange(0, i as int), ids@, metric),
        decreases n - i,
    {
        let ghost shorter = snap.entries@.subrange(0, i as int);
        let ghost longer = snap.entries@.subrange(0, i + 1);
        proof {
            assert(longer.drop_last() =~= shorter);
            assert(longer.last() == snap.entries@[i as int]);
            lemma_sum_bounds(longer, ids@, metric);
            lemma_sum_bounds(shorter, ids@, metric);
            lemma_total_prefix_le(snap.entries@, i + 1, metric);
        }
        let e = snap.entries[i];
        if ids.contains(e.pid) {
            let v = match metric {
                MemMetric::Resident => e.resident_bytes,
                MemMetric::Virtual => e.virtual_bytes,
            };
            acc = acc + v;
        }
        i = i + 1;
    }
    proof {
        assert(snap.entries@.subrange(0, n as int) =~= snap.entries@);
    }
    acc
}

/// Law: expansion reads the snapshot as a table keyed by process id, so any
/// reordering of the snapshot's entries yields the same hierarchy set.
pub proof fn lemma_expand_order_independent(
    e1: Seq<ProcEntry>,
    e2: Seq<ProcEntry>,
    root: u64,
    include_descendants: bool,
)
    requires
        unique_pids(e1),
        unique_pids(e2),
        e1.to_multiset() == e2.to_multiset(),
    ensures
        spec_expand(map_of(e1), root, include_descendants) == spec_expand(
            map_of(e2),
            root,
            include_descendants,
        ),
{
    lemma_map_of_permutation(e1, e2);
}

} // verus!
