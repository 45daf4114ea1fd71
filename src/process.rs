//! The process hierarchy, rebuilt from the flat process list of each tick.

use std::collections::BTreeMap;
use vstd::prelude::*;

verus! {

broadcast use vstd::std_specs::btree::group_btree_axioms, vstd::laws_cmp::group_laws_cmp;

/// A process identifier.
pub type Pid = i32;

/// One harvested process; `F` is the type of the fractional readings.
pub struct ProcessHarvest<F> {
    /// The process's identifier.
    pub pid: Pid,
    /// The identifier of its parent, if it has one.
    pub parent_pid: Option<Pid>,
    /// The process name.
    pub name: String,
    /// The full command line.
    pub command: String,
    /// CPU usage, in percent.
    pub cpu_usage_percent: F,
    /// Memory usage, in percent.
    pub mem_usage_percent: F,
    /// Memory usage, in bytes.
    pub mem_usage_bytes: u64,
}

/// The children of each parent process, keyed by the parent's identifier,
/// held in a `hashbrown::HashMap`.
#[verifier::external_body]
pub struct ChildMap {
    map: hashbrown::HashMap<Pid, Vec<Pid>>,
}

/// The child lists that a [`ChildMap`] holds.
pub uninterp spec fn child_lists(m: ChildMap) -> Map<Pid, Seq<Pid>>;

impl ChildMap {
    /// Relies on `hashbrown::HashMap::new`: the new map is empty.
    #[verifier::external_body]
    pub(crate) fn new() -> (r: Self)
        ensures
            child_lists(r) =~= Map::empty(),
    {
        ChildMap { map: hashbrown::HashMap::new() }
    }

    /// Relies on `hashbrown::HashMap::clear`: no entry is left.
    #[verifier::external_body]
    fn clear(&mut self)
        ensures
            child_lists(*final(self)) =~= Map::empty(),
    {
        self.map.clear();
    }

    /// Relies on `hashbrown::HashMap::remove`: takes out the entry of
    /// `parent`, and hands back its list if there was one.
    #[verifier::external_body]
    fn remove(&mut self, parent: Pid) -> (r: Option<Vec<Pid>>)
        ensures
            child_lists(*final(self)) == child_lists(*old(self)).remove(parent),
            match r {
                Some(v) => child_lists(*old(self)).contains_key(parent) && v@ == child_lists(*old(self))[parent],
                None => !child_lists(*old(self)).contains_key(parent),
            },
    {
        self.map.remove(&parent)
    }

    /// Relies on `hashbrown::HashMap::insert`: `parent` maps to `children`
    /// afterwards, and every other entry stays.
    #[verifier::external_body]
    fn insert(&mut self, parent: Pid, children: Vec<Pid>)
        ensures
            child_lists(*final(self)) == child_lists(*old(self)).insert(parent, children@),
    {
        self.map.insert(parent, children);
    }

    /// Relies on `hashbrown::HashMap::get`: the list of `parent`, if the map
    /// has an entry for it.
    #[verifier::external_body]
    fn get(&self, parent: Pid) -> (r: Option<&Vec<Pid>>)
        ensures
            match r {
                Some(v) => child_lists(*self).contains_key(parent) && v@ == child_lists(*self)[parent],
                None => !child_lists(*self).contains_key(parent),
            },
    {
        self.map.get(&parent)
    }
}

/// The record kept for each PID of `ps`: the last one listed with that PID.
pub open spec fn pid_map<F>(ps: Seq<ProcessHarvest<F>>) -> Map<Pid, ProcessHarvest<F>>
    decreases ps.len(),
{
    if ps.len() == 0 {
        Map::empty()
    } else {
        pid_map(ps.drop_last()).insert(ps.last().pid, ps.last())
    }
}

/// The PIDs of the processes of `ps` whose parent is `parent`, in list
/// order.
pub open spec fn children_in<F>(ps: Seq<ProcessHarvest<F>>, parent: Pid) -> Seq<Pid>
    decreases ps.len(),
{
    if ps.len() == 0 {
        Seq::empty()
    } else {
        let rest = children_in(ps.drop_first(), parent);
        if ps[0].parent_pid == Some(parent) {
            seq![ps[0].pid] + rest
        } else {
            rest
        }
    }
}

/// Each parent of a process of `ps` mapped to its children, in list order.
pub open spec fn children_map<F>(ps: Seq<ProcessHarvest<F>>) -> Map<Pid, Seq<Pid>> {
    Map::new(|p: Pid| children_in(ps, p).len() > 0, |p: Pid| children_in(ps, p))
}

/// Whether `pid` has no parent in `m`: it has no parent PID, or its parent
/// is not a key of `m`.
pub open spec fn is_orphan<F>(m: Map<Pid, ProcessHarvest<F>>, pid: Pid) -> bool {
    match m[pid].parent_pid {
        Some(parent) => !m.contains_key(parent),
        None => true,
    }
}

/// Whether `s` is in strictly increasing order.
pub open spec fn strictly_increasing(s: Seq<Pid>) -> bool {
    forall|i: int, j: int| 0 <= i < j < s.len() ==> s[i] < s[j]
}

/// Inserts `x` into the strictly increasing `v`, unless it is there already.
fn insert_sorted(v: &mut Vec<Pid>, x: Pid)
    requires
        strictly_increasing(old(v)@),
    ensures
        strictly_increasing(final(v)@),
        forall|y: Pid| final(v)@.contains(y) <==> (old(v)@.contains(y) || y == x),
{
    let mut pos: usize = 0;
    while pos < v.len() && v[pos] < x
        invariant
            v@ == old(v)@,
            pos <= v@.len(),
            forall|i: int| 0 <= i < pos ==> v@[i] < x,
        decreases v@.len() - pos,
    {
        pos = pos + 1;
    }
    if pos < v.len() && v[pos] == x {
        assert(v@[pos as int] == x);
        return;
    }
    let ghost before = v@;
    v.insert(pos, x);
    proof {
        assert(v@ =~= before.subrange(0, pos as int).push(x) + before.subrange(pos as int, before.len() as int));
        assert forall|i: int, j: int| 0 <= i < j < v@.len() implies v@[i] < v@[j] by {
            if pos < before.len() {
                assert(x < before[pos as int]);
            }
            if j < pos {
                assert(v@[i] == before[i] && v@[j] == before[j]);
            } else if j == pos {
                assert(v@[i] == before[i]);
            } else if i < pos {
                assert(v@[i] == before[i] && v@[j] == before[j - 1]);
                assert(before[pos as int] <= before[j - 1]);
            } else if i == pos {
                assert(v@[j] == before[j - 1]);
                assert(before[pos as int] <= before[j - 1]);
            } else {
                assert(v@[i] == before[i - 1] && v@[j] == before[j - 1]);
            }
        }
        assert forall|y: Pid| v@.contains(y) <==> (before.contains(y) || y == x) by {
            if before.contains(y) {
                let i = choose|i: int| 0 <= i < before.len() && before[i] == y;
                if i < pos {
                    assert(v@[i] == y);
                } else {
                    assert(v@[i + 1] == y);
                }
            }
            if y == x {
                assert(v@[pos as int] == x);
            }
            if v@.contains(y) {
                let i = choose|i: int| 0 <= i < v@.len() && v@[i] == y;
                if i < pos {
                    assert(before[i] == y);
                } else if i > pos {
                    assert(before[i - 1] == y);
                }
            }
        }
    }
}

/// The process table of one tick.
pub struct ProcessData<F> {
    /// Each process, keyed by its PID.
    pub process_harvest: BTreeMap<Pid, ProcessHarvest<F>>,
    /// The PIDs of the children of each parent PID.
    pub process_parent_mapping: ChildMap,
    /// The PIDs, in increasing order, of the processes whose parent is not
    /// in the table.
    pub orphan_pids: Vec<Pid>,
}

impl<F> ProcessData<F> {
    /// The table is the one built from the process list `ps`: each PID keeps
    /// the last record listed for it, each parent PID maps to the PIDs of its
    /// children (in list order), and the orphans are, in increasing
    /// order, the PIDs whose process has no parent PID or a parent PID that
    /// is not in the table.
    pub open spec fn built_from(&self, ps: Seq<ProcessHarvest<F>>) -> bool {
        &&& self.process_harvest@ == pid_map(ps)
        &&& child_lists(self.process_parent_mapping) == children_map(ps)
        &&& strictly_increasing(self.orphan_pids@)
        &&& forall|pid: Pid|
            self.orphan_pids@.contains(pid) <==> (pid_map(ps).contains_key(pid) && is_orphan(pid_map(ps), pid))
    }

    /// An empty table.
    pub fn new() -> (r: Self)
        ensures
            r.process_harvest@ == Map::<Pid, ProcessHarvest<F>>::empty(),
            child_lists(r.process_parent_mapping) == Map::<Pid, Seq<Pid>>::empty(),
            r.orphan_pids@.len() == 0,
    {
        ProcessData { process_harvest: BTreeMap::new(), process_parent_mapping: ChildMap::new(), orphan_pids: Vec::new() }
    }

    /// The children of `parent`, in list order, if it has any.
    pub fn children_of(&self, parent: Pid) -> (r: Option<&Vec<Pid>>)
        ensures
            match r {
                Some(v) => child_lists(self.process_parent_mapping).contains_key(parent)
                    && v@ == child_lists(self.process_parent_mapping)[parent],
                None => !child_lists(self.process_parent_mapping).contains_key(parent),
            },
    {
        self.process_parent_mapping.get(parent)
    }

    /// Replaces the table with the processes of `list_of_processes`: each PID
    /// keeps the last record listed for it, each parent PID maps to the PIDs
    /// of its children (in list order), and a process is an orphan when it
    /// has no parent PID or its parent is not in the new table.
    pub fn ingest(&mut self, list_of_processes: Vec<ProcessHarvest<F>>)
        ensures
            final(self).built_from(list_of_processes@),
    {
        let ghost ps = list_of_processes@;
        let ghost n = ps.len();
        self.process_parent_mapping.clear();
        let mut harvest: BTreeMap<Pid, ProcessHarvest<F>> = BTreeMap::new();
        let mut pids: Vec<Pid> = Vec::new();
        let mut rest = list_of_processes;
        proof {
            assert(ps.subrange(n as int, n as int) =~= Seq::<ProcessHarvest<F>>::empty());
            assert(children_map(Seq::<ProcessHarvest<F>>::empty()) =~= Map::<Pid, Seq<Pid>>::empty());
            assert(rest@ =~= ps.subrange(0, n as int));
            assert(pid_map(rest@).union_prefer_right(harvest@) =~= pid_map(rest@));
        }
        while rest.len() > 0
            invariant
                rest@.len() <= n,
                n == ps.len(),
                rest@ == ps.subrange(0, rest@.len() as int),
                pid_map(ps) == pid_map(rest@).union_prefer_right(harvest@),
                child_lists(self.process_parent_mapping) == children_map(ps.subrange(rest@.len() as int, n as int)),
                forall|x: Pid| pids@.contains(x) <==> harvest@.contains_key(x),
            decreases rest@.len(),
        {
            let ghost i = rest@.len() as int;
            let ghost before_children = child_lists(self.process_parent_mapping);
            let ghost before_harvest = harvest@;
            let ghost before_pids = pids@;
            let p = rest.pop().unwrap();
            let pid = p.pid;
            proof {
                assert(p == ps[i - 1]);
                assert(rest@ =~= ps.subrange(0, i - 1));
                assert(ps.subrange(0, i).drop_last() =~= ps.subrange(0, i - 1));
                assert(ps.subrange(i - 1, n as int).drop_first() =~= ps.subrange(i, n as int));
            }
            let ghost s = ps.subrange(i - 1, n as int);
            let ghost t = ps.subrange(i, n as int);
            proof {
                assert(s.len() > 0);
                assert(s[0] == p);
                assert(s.drop_first() =~= t);
                assert(before_children == children_map(t));
            }
            match p.parent_pid {
                Some(parent) => {
                    let mut children = match self.process_parent_mapping.remove(parent) {
                        Some(v) => v,
                        None => Vec::new(),
                    };
                    proof {
                        if !before_children.contains_key(parent) {
                            assert(children_in(t, parent) =~= children@);
                        }
                        assert(children@ == children_in(t, parent));
                    }
                    let ghost listed = children@;
                    children.insert(0, pid);
                    proof {
                        assert(children@ =~= seq![pid] + listed);
                    }
                    self.process_parent_mapping.insert(parent, children);
                    proof {
                        let m = child_lists(self.process_parent_mapping);
                        assert forall|q: Pid| #[trigger] children_in(s, q) == (if q == parent {
                            seq![pid] + children_in(t, q)
                        } else {
                            children_in(t, q)
                        }) by {}
                        assert(m =~= children_map(s));
                    }
                },
                None => {
                    proof {
                        assert forall|q: Pid| #[trigger] children_in(s, q) == children_in(t, q) by {}
                        assert(before_children =~= children_map(s));
                    }
                },
            }
            if !harvest.contains_key(&pid) {
                harvest.insert(pid, p);
                pids.push(pid);
                proof {
                    assert(pids@ == before_pids.push(pid));
                    assert(harvest@ == before_harvest.insert(pid, p));
                    assert forall|x: Pid| pids@.contains(x) <==> harvest@.contains_key(x) by {
                        if x == pid {
                            assert(pids@[pids@.len() - 1] == pid);
                        } else if pids@.contains(x) {
                            let k = choose|k: int| 0 <= k < pids@.len() && pids@[k] == x;
                            assert(before_pids[k] == x);
                            assert(before_pids.contains(x));
                            assert(before_harvest.contains_key(x));
                        } else if before_pids.contains(x) {
                            let k = choose|k: int| 0 <= k < before_pids.len() && before_pids[k] == x;
                            assert(pids@[k] == x);
                        }
                    }
                }
            }
            proof {
                assert(pid_map(ps.subrange(0, i)) == pid_map(rest@).insert(pid, p));
                assert(pid_map(ps) =~= pid_map(rest@).union_prefer_right(harvest@));
            }
        }
        proof {
            assert(pid_map(rest@) =~= Map::<Pid, ProcessHarvest<F>>::empty());
            assert(harvest@ =~= pid_map(ps));
            assert(ps.subrange(0, n as int) =~= ps);
        }
        let mut orphans: Vec<Pid> = Vec::new();
        let mut j: usize = 0;
        while j < pids.len()
            invariant
                j <= pids@.len(),
                harvest@ == pid_map(ps),
                forall|x: Pid| pids@.contains(x) <==> harvest@.contains_key(x),
                strictly_increasing(orphans@),
                forall|x: Pid|
                    orphans@.contains(x) <==> (pids@.subrange(0, j as int).contains(x) && is_orphan(harvest@, x)),
            decreases pids@.len() - j,
        {
            let pid = pids[j];
            proof {
                assert(pids@.contains(pid));
            }
            let orphan = match harvest.get(&pid) {
                Some(record) => match record.parent_pid {
                    Some(parent) => !harvest.contains_key(&parent),
                    None => true,
                },
                None => true,
            };
            let ghost before = orphans@;
            if orphan {
                insert_sorted(&mut orphans, pid);
            }
            proof {
                assert(pids@.subrange(0, j + 1) =~= pids@.subrange(0, j as int).push(pid));
                assert forall|x: Pid|
                    orphans@.contains(x) <==> (pids@.subrange(0, j + 1).contains(x) && is_orphan(harvest@, x)) by {
                    let s0 = pids@.subrange(0, j as int);
                    let s1 = pids@.subrange(0, j + 1);
                    if s0.contains(x) {
                        let k = choose|k: int| 0 <= k < s0.len() && s0[k] == x;
                        assert(s1[k] == x);
                    }
                    if s1.contains(x) && x != pid {
                        let k = choose|k: int| 0 <= k < s1.len() && s1[k] == x;
                        assert(s0[k] == x);
                    }
                    if x == pid {
                        assert(s1[j as int] == pid);
                    }
                }
            }
            j = j + 1;
        }
        proof {
            assert(pids@.subrange(0, pids@.len() as int) =~= pids@);
        }
        self.process_harvest = harvest;
        self.orphan_pids = orphans;
    }
}

} // verus!
