//! The process tree and the scheduler's queue as sequences of plain values,
//! and the steps that keep them sound.

use vstd::prelude::*;
use crate::config::ROOT_PID;
use crate::task::TaskStatus;

verus! {

/// What the process tree and the scheduler see of one process.
pub struct ProcView {
    pub parent: Option<usize>,
    pub children: Seq<usize>,
    pub status: TaskStatus,
}

/// The process table as the tree and the scheduler see it.
pub type ProcTable = Seq<Option<ProcView>>;

/// `pids` holds `pid`.
pub open spec fn lists(pids: Seq<usize>, pid: int) -> bool {
    exists|i: int| 0 <= i < pids.len() && #[trigger] pids[i] == pid
}

/// Slot `pid` of the table holds a process.
pub open spec fn live(ps: ProcTable, pid: int) -> bool {
    0 <= pid < ps.len() && ps[pid] is Some
}

/// If `c` is a process other than the root, it has a parent in the table,
/// another process, that lists it.
pub open spec fn parent_ok(ps: ProcTable, c: int) -> bool {
    live(ps, c) && c != ROOT_PID ==> {
        &&& ps[c]->0.parent is Some
        &&& ps[c]->0.parent->0 != c
        &&& live(ps, ps[c]->0.parent->0 as int)
        &&& lists(ps[ps[c]->0.parent->0 as int]->0.children, c)
    }
}

/// If `p` is a process with a `k`-th child, that child is in the table and names `p` as its parent.
pub open spec fn child_ok(ps: ProcTable, p: int, k: int) -> bool {
    live(ps, p) && 0 <= k < ps[p]->0.children.len() ==> {
        &&& live(ps, ps[p]->0.children[k] as int)
        &&& ps[ps[p]->0.children[k] as int]->0.parent is Some
        &&& ps[ps[p]->0.children[k] as int]->0.parent->0 == p
    }
}

/// If `p` is a process, its `k1`-th and `k2`-th children differ.
pub open spec fn distinct_ok(ps: ProcTable, p: int, k1: int, k2: int) -> bool {
    live(ps, p) && 0 <= k1 < k2 < ps[p]->0.children.len() ==> ps[p]->0.children[k1]
        != ps[p]->0.children[k2]
}

/// If `p` is a zombie other than the root, it has no children.
pub open spec fn zombie_ok(ps: ProcTable, p: int) -> bool {
    live(ps, p) && p != ROOT_PID && ps[p]->0.status == TaskStatus::Zombie
        ==> ps[p]->0.children.len() == 0
}

/// The process tree is sound: the root has no parent; every other process
/// has a parent in the table that lists it; whoever is listed is in the
/// table and names the lister as its parent; nobody is listed twice; and a
/// zombie other than the root has no children left.
pub open spec fn tree_wf(ps: ProcTable) -> bool {
    &&& live(ps, ROOT_PID as int)
    &&& ps[ROOT_PID as int]->0.parent is None
    &&& forall|c: int| #[trigger] parent_ok(ps, c)
    &&& forall|p: int, k: int| #[trigger] child_ok(ps, p, k)
    &&& forall|p: int, k1: int, k2: int| #[trigger] distinct_ok(ps, p, k1, k2)
    &&& forall|p: int| #[trigger] zombie_ok(ps, p)
}

/// If the queue has a `k`-th entry, it is a ready process.
pub open spec fn queued_ok(ps: ProcTable, ready: Seq<usize>, k: int) -> bool {
    0 <= k < ready.len() ==> live(ps, ready[k] as int) && ps[ready[k] as int]->0.status
        == TaskStatus::Ready
}

/// If `pid` is a ready process, the queue holds it.
pub open spec fn listed_ok(ps: ProcTable, ready: Seq<usize>, pid: int) -> bool {
    live(ps, pid) && ps[pid]->0.status == TaskStatus::Ready ==> lists(ready, pid)
}

/// The ready queue holds every ready process once, and nothing else.
pub open spec fn ready_wf(ps: ProcTable, ready: Seq<usize>) -> bool {
    &&& forall|k: int| #[trigger] queued_ok(ps, ready, k)
    &&& forall|k1: int, k2: int|
        0 <= k1 < k2 < ready.len() ==> #[trigger] ready[k1] != #[trigger] ready[k2]
    &&& forall|pid: int| #[trigger] listed_ok(ps, ready, pid)
}

/// If `pid` is a process that is `Running`, it is the running process.
pub open spec fn running_ok(ps: ProcTable, current: Option<usize>, pid: int) -> bool {
    live(ps, pid) && ps[pid]->0.status == TaskStatus::Running ==> current is Some && current->0
        == pid
}

/// The running process, if there is one, is the one process that is `Running`.
pub open spec fn current_wf(ps: ProcTable, current: Option<usize>) -> bool {
    &&& current matches Some(c) ==> live(ps, c as int) && ps[c as int]->0.status
        == TaskStatus::Running
    &&& forall|pid: int| #[trigger] running_ok(ps, current, pid)
}

/// `b` holds the processes of `a`, with the same parents and children, and the same zombies.
pub open spec fn links_eq(a: ProcTable, b: ProcTable, q: int) -> bool {
    &&& live(a, q) == live(b, q)
    &&& live(a, q) ==> a[q]->0.parent == b[q]->0.parent && a[q]->0.children == b[q]->0.children
        && (a[q]->0.status == TaskStatus::Zombie) == (b[q]->0.status == TaskStatus::Zombie)
}

/// `b` holds the processes of `a`, each in the same state.
pub open spec fn status_eq(a: ProcTable, b: ProcTable, q: int) -> bool {
    &&& live(a, q) == live(b, q)
    &&& live(a, q) ==> a[q]->0.status == b[q]->0.status
}

/// The tree stays sound where parents, children and zombies stay.
pub proof fn lemma_tree_same_links(a: ProcTable, b: ProcTable)
    requires
        tree_wf(a),
        forall|q: int| #[trigger] links_eq(a, b, q),
    ensures
        tree_wf(b),
{
    assert(links_eq(a, b, ROOT_PID as int));
    assert forall|c: int| #[trigger] parent_ok(b, c) by {
        assert(links_eq(a, b, c));
        assert(parent_ok(a, c));
        if live(b, c) && c != ROOT_PID {
            assert(links_eq(a, b, a[c]->0.parent->0 as int));
        }
    }
    assert forall|p: int, k: int| #[trigger] child_ok(b, p, k) by {
        assert(links_eq(a, b, p));
        assert(child_ok(a, p, k));
        if live(b, p) && 0 <= k < b[p]->0.children.len() {
            assert(links_eq(a, b, a[p]->0.children[k] as int));
        }
    }
    assert forall|p: int, k1: int, k2: int| #[trigger] distinct_ok(b, p, k1, k2) by {
        assert(links_eq(a, b, p));
        assert(distinct_ok(a, p, k1, k2));
    }
    assert forall|p: int| #[trigger] zombie_ok(b, p) by {
        assert(links_eq(a, b, p));
        assert(zombie_ok(a, p));
    }
}

/// The queue and the running process stay sound where states stay.
pub proof fn lemma_sched_same_status(
    a: ProcTable,
    b: ProcTable,
    ready: Seq<usize>,
    current: Option<usize>,
)
    requires
        ready_wf(a, ready),
        current_wf(a, current),
        forall|q: int| #[trigger] status_eq(a, b, q),
    ensures
        ready_wf(b, ready),
        current_wf(b, current),
{
    assert forall|k: int| #[trigger] queued_ok(b, ready, k) by {
        assert(queued_ok(a, ready, k));
        if 0 <= k < ready.len() {
            assert(status_eq(a, b, ready[k] as int));
        }
    }
    assert forall|pid: int| #[trigger] listed_ok(b, ready, pid) by {
        assert(status_eq(a, b, pid));
        assert(listed_ok(a, ready, pid));
    }
    assert forall|pid: int| #[trigger] running_ok(b, current, pid) by {
        assert(status_eq(a, b, pid));
        assert(running_ok(a, current, pid));
    }
    if current is Some {
        assert(status_eq(a, b, current->0 as int));
    }
}

/// One more empty slot at the end changes nothing.
pub proof fn lemma_push_empty(ps: ProcTable, ready: Seq<usize>, current: Option<usize>)
    requires
        tree_wf(ps),
        ready_wf(ps, ready),
        current_wf(ps, current),
    ensures
        tree_wf(ps.push(None)),
        ready_wf(ps.push(None), ready),
        current_wf(ps.push(None), current),
{
    let ps2 = ps.push(None);
    assert forall|q: int| #[trigger] links_eq(ps, ps2, q) by {}
    assert forall|q: int| #[trigger] status_eq(ps, ps2, q) by {}
    lemma_tree_same_links(ps, ps2);
    lemma_sched_same_status(ps, ps2, ready, current);
}

/// No list of children names an empty slot.
pub proof fn lemma_unlisted(ps: ProcTable, c: int, q: int, k: int)
    requires
        tree_wf(ps),
        !live(ps, c),
        live(ps, q),
        0 <= k < ps[q]->0.children.len(),
    ensures
        ps[q]->0.children[k] != c,
{
    assert(child_ok(ps, q, k));
}

/// `v` in state `s`.
pub open spec fn in_state(v: ProcView, s: TaskStatus) -> ProcView {
    ProcView { parent: v.parent, children: v.children, status: s }
}

/// `v` with the children `kids`.
pub open spec fn with_children(v: ProcView, kids: Seq<usize>) -> ProcView {
    ProcView { parent: v.parent, children: kids, status: v.status }
}

/// The table after process `p` got the new, ready child `c` in the empty slot `c`.
pub open spec fn with_child(ps: ProcTable, p: usize, c: usize) -> ProcTable {
    ps.update(
        c as int,
        Some(ProcView { parent: Some(p), children: Seq::empty(), status: TaskStatus::Ready }),
    ).update(p as int, Some(with_children(ps[p as int]->0, ps[p as int]->0.children.push(c))))
}

/// A new child in an empty slot, listed last by its parent and queued last, keeps the kernel sound.
pub proof fn lemma_add_child(
    ps: ProcTable,
    ready: Seq<usize>,
    current: Option<usize>,
    p: usize,
    c: usize,
)
    requires
        tree_wf(ps),
        ready_wf(ps, ready),
        current_wf(ps, current),
        live(ps, p as int),
        ps[p as int]->0.status != TaskStatus::Zombie,
        c < ps.len(),
        ps[c as int] is None,
    ensures
        tree_wf(with_child(ps, p, c)),
        ready_wf(with_child(ps, p, c), ready.push(c)),
        current_wf(with_child(ps, p, c), current),
{
    let ps2 = with_child(ps, p, c);
    let kids = ps[p as int]->0.children;
    let kids2 = kids.push(c);
    assert(ps2[c as int]->0.parent == Some(p));
    assert(ps2[p as int]->0.children == kids2);
    assert forall|x: int| #[trigger] parent_ok(ps2, x) by {
        if live(ps2, x) && x != ROOT_PID {
            if x == c {
                assert(kids2[kids.len() as int] == c);
            } else {
                assert(parent_ok(ps, x));
                let q = ps[x]->0.parent->0 as int;
                if q == p {
                    let i = choose|i: int| 0 <= i < kids.len() && #[trigger] kids[i] == x;
                    assert(kids2[i] == x);
                }
            }
        }
    }
    assert forall|q: int, k: int| #[trigger] child_ok(ps2, q, k) by {
        if live(ps2, q) && 0 <= k < ps2[q]->0.children.len() {
            if q == p && k == kids.len() {
            } else {
                assert(child_ok(ps, q, k));
                lemma_unlisted(ps, c as int, q, k);
            }
        }
    }
    assert forall|q: int, k1: int, k2: int| #[trigger] distinct_ok(ps2, q, k1, k2) by {
        if live(ps2, q) && 0 <= k1 < k2 < ps2[q]->0.children.len() {
            if q == p && k2 == kids.len() {
                lemma_unlisted(ps, c as int, p as int, k1);
            } else {
                assert(distinct_ok(ps, q, k1, k2));
            }
        }
    }
    assert forall|q: int| #[trigger] zombie_ok(ps2, q) by {
        assert(zombie_ok(ps, q));
    }
    let ready2 = ready.push(c);
    assert forall|k: int| #[trigger] queued_ok(ps2, ready2, k) by {
        if 0 <= k < ready.len() {
            assert(queued_ok(ps, ready, k));
        }
    }
    assert forall|k1: int, k2: int| 0 <= k1 < k2 < ready2.len() implies #[trigger] ready2[k1]
        != #[trigger] ready2[k2] by {
        if k2 == ready.len() {
            assert(queued_ok(ps, ready, k1));
        } else {
            assert(ready[k1] != ready[k2]);
        }
    }
    assert forall|pid: int| #[trigger] listed_ok(ps2, ready2, pid) by {
        if live(ps2, pid) && ps2[pid]->0.status == TaskStatus::Ready {
            if pid == c {
                assert(ready2[ready.len() as int] == c);
            } else {
                assert(listed_ok(ps, ready, pid));
                let i = choose|i: int| 0 <= i < ready.len() && #[trigger] ready[i] == pid;
                assert(ready2[i] == pid);
            }
        }
    }
    assert forall|pid: int| #[trigger] running_ok(ps2, current, pid) by {
        assert(running_ok(ps, current, pid));
    }
}

/// The running process goes to the back of the queue; afterwards nobody runs.
pub proof fn lemma_suspend(ps: ProcTable, ready: Seq<usize>, cur: usize)
    requires
        tree_wf(ps),
        ready_wf(ps, ready),
        current_wf(ps, Some(cur)),
    ensures
        tree_wf(ps.update(cur as int, Some(in_state(ps[cur as int]->0, TaskStatus::Ready)))),
        ready_wf(
            ps.update(cur as int, Some(in_state(ps[cur as int]->0, TaskStatus::Ready))),
            ready.push(cur),
        ),
        current_wf(ps.update(cur as int, Some(in_state(ps[cur as int]->0, TaskStatus::Ready))), None),
{
    let c = cur as int;
    let ps2 = ps.update(c, Some(in_state(ps[c]->0, TaskStatus::Ready)));
    let ready2 = ready.push(cur);
    assert forall|q: int| #[trigger] links_eq(ps, ps2, q) by {}
    lemma_tree_same_links(ps, ps2);
    assert forall|k: int| #[trigger] queued_ok(ps2, ready2, k) by {
        if 0 <= k < ready.len() {
            assert(queued_ok(ps, ready, k));
        }
    }
    assert forall|k1: int, k2: int| 0 <= k1 < k2 < ready2.len() implies #[trigger] ready2[k1]
        != #[trigger] ready2[k2] by {
        if k2 == ready.len() {
            assert(queued_ok(ps, ready, k1));
        } else {
            assert(ready[k1] != ready[k2]);
        }
    }
    assert forall|pid: int| #[trigger] listed_ok(ps2, ready2, pid) by {
        if live(ps2, pid) && ps2[pid]->0.status == TaskStatus::Ready {
            if pid == c {
                assert(ready2[ready.len() as int] == c);
            } else {
                assert(listed_ok(ps, ready, pid));
                let i = choose|i: int| 0 <= i < ready.len() && #[trigger] ready[i] == pid;
                assert(ready2[i] == pid);
            }
        }
    }
    assert forall|pid: int| #[trigger] running_ok(ps2, None, pid) by {
        assert(running_ok(ps, Some(cur), pid));
    }
}

/// The `i`-th process of the queue leaves it and runs.
pub proof fn lemma_dispatch(ps: ProcTable, ready: Seq<usize>, i: int)
    requires
        tree_wf(ps),
        ready_wf(ps, ready),
        current_wf(ps, None),
        0 <= i < ready.len(),
    ensures
        tree_wf(ps.update(ready[i] as int, Some(in_state(ps[ready[i] as int]->0, TaskStatus::Running)))),
        ready_wf(
            ps.update(ready[i] as int, Some(in_state(ps[ready[i] as int]->0, TaskStatus::Running))),
            ready.remove(i),
        ),
        current_wf(
            ps.update(ready[i] as int, Some(in_state(ps[ready[i] as int]->0, TaskStatus::Running))),
            Some(ready[i]),
        ),
{
    let c = ready[i] as int;
    let ps2 = ps.update(c, Some(in_state(ps[c]->0, TaskStatus::Running)));
    let ready2 = ready.remove(i);
    assert(queued_ok(ps, ready, i));
    assert forall|q: int| #[trigger] links_eq(ps, ps2, q) by {}
    lemma_tree_same_links(ps, ps2);
    assert forall|k: int| #[trigger] queued_ok(ps2, ready2, k) by {
        if 0 <= k < ready2.len() {
            if k < i {
                assert(queued_ok(ps, ready, k));
                assert(ready[k] != ready[i]);
            } else {
                assert(queued_ok(ps, ready, k + 1));
                assert(ready[i] != ready[k + 1]);
            }
        }
    }
    assert forall|k1: int, k2: int| 0 <= k1 < k2 < ready2.len() implies #[trigger] ready2[k1]
        != #[trigger] ready2[k2] by {
        let j1 = if k1 < i {
            k1
        } else {
            k1 + 1
        };
        let j2 = if k2 < i {
            k2
        } else {
            k2 + 1
        };
        assert(ready[j1] != ready[j2]);
    }
    assert forall|pid: int| #[trigger] listed_ok(ps2, ready2, pid) by {
        if live(ps2, pid) && ps2[pid]->0.status == TaskStatus::Ready {
            assert(listed_ok(ps, ready, pid));
            let j = choose|j: int| 0 <= j < ready.len() && #[trigger] ready[j] == pid;
            if j < i {
                assert(ready2[j] == pid);
            } else {
                assert(ready2[j - 1] == pid);
            }
        }
    }
    assert forall|pid: int| #[trigger] running_ok(ps2, Some(ready[i]), pid) by {
        assert(running_ok(ps, None, pid));
    }
}

/// The table after the first child of `p` went over to the root.
pub open spec fn reparented(ps: ProcTable, p: int) -> ProcTable {
    let c = ps[p]->0.children[0] as int;
    ps.update(p, Some(with_children(ps[p]->0, ps[p]->0.children.remove(0)))).update(
        c,
        Some(ProcView { parent: Some(ROOT_PID), children: ps[c]->0.children, status: ps[c]->0.status }),
    ).update(
        ROOT_PID as int,
        Some(
            with_children(
                ps[ROOT_PID as int]->0,
                ps[ROOT_PID as int]->0.children.push(ps[p]->0.children[0]),
            ),
        ),
    )
}

/// Handing the first child of a process other than the root over to the root keeps the kernel sound.
pub proof fn lemma_reparent(ps: ProcTable, ready: Seq<usize>, current: Option<usize>, p: int)
    requires
        tree_wf(ps),
        ready_wf(ps, ready),
        current_wf(ps, current),
        live(ps, p),
        p != ROOT_PID,
        ps[p]->0.children.len() > 0,
    ensures
        tree_wf(reparented(ps, p)),
        ready_wf(reparented(ps, p), ready),
        current_wf(reparented(ps, p), current),
        ps[p]->0.children[0] != p,
        ps[p]->0.children[0] != ROOT_PID,
        live(ps, ps[p]->0.children[0] as int),
{
    let r = ROOT_PID as int;
    let c = ps[p]->0.children[0] as int;
    let ps2 = reparented(ps, p);
    let pk = ps[p]->0.children;
    let pk2 = pk.remove(0);
    let rk = ps[r]->0.children;
    let rk2 = rk.push(pk[0]);
    assert(child_ok(ps, p, 0));
    assert(parent_ok(ps, c));
    assert(c != p && c != r && live(ps, c));
    assert(ps2[p]->0.children == pk2);
    assert(ps2[r]->0.children == rk2);
    assert(ps2[c]->0.parent == Some(ROOT_PID));
    assert forall|q: int| #[trigger] status_eq(ps, ps2, q) by {}
    lemma_sched_same_status(ps, ps2, ready, current);
    // the root did not list the child before
    assert forall|k: int| 0 <= k < rk.len() implies rk[k] != c by {
        assert(child_ok(ps, r, k));
    }
    assert forall|x: int| #[trigger] parent_ok(ps2, x) by {
        if live(ps2, x) && x != ROOT_PID {
            assert(parent_ok(ps, x));
            if x == c {
                assert(rk2[rk.len() as int] == c);
            } else {
                let q = ps[x]->0.parent->0 as int;
                assert(ps2[x]->0.parent == ps[x]->0.parent);
                let prev = ps[q]->0.children;
                let i = choose|i: int| 0 <= i < prev.len() && #[trigger] prev[i] == x;
                if q == p {
                    assert(i != 0);
                    assert(pk2[i - 1] == x);
                } else if q == r {
                    assert(rk2[i] == x);
                } else {
                    assert(ps2[q]->0.children == prev);
                }
            }
        }
    }
    assert forall|q: int, k: int| #[trigger] child_ok(ps2, q, k) by {
        if live(ps2, q) && 0 <= k < ps2[q]->0.children.len() {
            if q == r && k == rk.len() {
            } else {
                let k0 = if q == p {
                    k + 1
                } else {
                    k
                };
                assert(child_ok(ps, q, k0));
                assert(ps2[q]->0.children[k] == ps[q]->0.children[k0]);
                let x = ps[q]->0.children[k0] as int;
                if x == c {
                    // only `p` listed the child, and only first
                    assert(q == p);
                    assert(distinct_ok(ps, p, 0, k0));
                } else {
                    assert(ps2[x]->0.parent == ps[x]->0.parent);
                }
            }
        }
    }
    assert forall|q: int, k1: int, k2: int| #[trigger] distinct_ok(ps2, q, k1, k2) by {
        if live(ps2, q) && 0 <= k1 < k2 < ps2[q]->0.children.len() {
            if q == p {
                assert(distinct_ok(ps, p, k1 + 1, k2 + 1));
            } else if q == r && k2 == rk.len() {
                assert(rk[k1] != c);
            } else {
                assert(distinct_ok(ps, q, k1, k2));
            }
        }
    }
    assert forall|q: int| #[trigger] zombie_ok(ps2, q) by {
        assert(zombie_ok(ps, q));
    }
}

/// The running process exits: it is the root, or has no children left. Afterwards nobody runs.
pub proof fn lemma_become_zombie(ps: ProcTable, ready: Seq<usize>, cur: usize)
    requires
        tree_wf(ps),
        ready_wf(ps, ready),
        current_wf(ps, Some(cur)),
        cur == ROOT_PID || ps[cur as int]->0.children.len() == 0,
    ensures
        tree_wf(ps.update(cur as int, Some(in_state(ps[cur as int]->0, TaskStatus::Zombie)))),
        ready_wf(ps.update(cur as int, Some(in_state(ps[cur as int]->0, TaskStatus::Zombie))), ready),
        current_wf(ps.update(cur as int, Some(in_state(ps[cur as int]->0, TaskStatus::Zombie))), None),
{
    let c = cur as int;
    let ps2 = ps.update(c, Some(in_state(ps[c]->0, TaskStatus::Zombie)));
    assert forall|x: int| #[trigger] parent_ok(ps2, x) by {
        assert(parent_ok(ps, x));
    }
    assert forall|q: int, k: int| #[trigger] child_ok(ps2, q, k) by {
        assert(child_ok(ps, q, k));
    }
    assert forall|q: int, k1: int, k2: int| #[trigger] distinct_ok(ps2, q, k1, k2) by {
        assert(distinct_ok(ps, q, k1, k2));
    }
    assert forall|q: int| #[trigger] zombie_ok(ps2, q) by {
        assert(zombie_ok(ps, q));
    }
    assert forall|k: int| #[trigger] queued_ok(ps2, ready, k) by {
        assert(queued_ok(ps, ready, k));
    }
    assert forall|pid: int| #[trigger] listed_ok(ps2, ready, pid) by {
        assert(listed_ok(ps, ready, pid));
    }
    assert forall|pid: int| #[trigger] running_ok(ps2, None, pid) by {
        assert(running_ok(ps, Some(cur), pid));
    }
}

/// The table after `p` collected its `k`-th child.
pub open spec fn reaped(ps: ProcTable, p: int, k: int) -> ProcTable {
    ps.update(p, Some(with_children(ps[p]->0, ps[p]->0.children.remove(k)))).update(
        ps[p]->0.children[k] as int,
        None,
    )
}

/// Collecting a zombie child empties its slot, and nothing refers to the slot any more.
pub proof fn lemma_reap(ps: ProcTable, ready: Seq<usize>, current: Option<usize>, p: int, k: int)
    requires
        tree_wf(ps),
        ready_wf(ps, ready),
        current_wf(ps, current),
        live(ps, p),
        0 <= k < ps[p]->0.children.len(),
        ps[ps[p]->0.children[k] as int]->0.status == TaskStatus::Zombie,
    ensures
        tree_wf(reaped(ps, p, k)),
        ready_wf(reaped(ps, p, k), ready),
        current_wf(reaped(ps, p, k), current),
        ps[p]->0.children[k] != p,
        ps[p]->0.children[k] != ROOT_PID,
        live(ps, ps[p]->0.children[k] as int),
{
    let z = ps[p]->0.children[k] as int;
    let ps2 = reaped(ps, p, k);
    let pk = ps[p]->0.children;
    let pk2 = pk.remove(k);
    assert(child_ok(ps, p, k));
    assert(parent_ok(ps, z));
    assert(zombie_ok(ps, z));
    assert(z != p && z != ROOT_PID && live(ps, z));
    assert(ps2[p]->0.children == pk2);
    assert forall|x: int| #[trigger] parent_ok(ps2, x) by {
        if live(ps2, x) && x != ROOT_PID {
            assert(parent_ok(ps, x));
            let q = ps[x]->0.parent->0 as int;
            let prev = ps[q]->0.children;
            let i = choose|i: int| 0 <= i < prev.len() && #[trigger] prev[i] == x;
            // the zombie has no children, so it is nobody's parent
            assert(q != z);
            if q == p {
                assert(i != k);
                if i < k {
                    assert(pk2[i] == x);
                } else {
                    assert(pk2[i - 1] == x);
                }
            }
        }
    }
    assert forall|q: int, j: int| #[trigger] child_ok(ps2, q, j) by {
        if live(ps2, q) && 0 <= j < ps2[q]->0.children.len() {
            let j0 = if q == p && j >= k {
                j + 1
            } else {
                j
            };
            assert(child_ok(ps, q, j0));
            assert(ps2[q]->0.children[j] == ps[q]->0.children[j0]);
            let x = ps[q]->0.children[j0] as int;
            if x == z {
                assert(q == p);
                if j0 < k {
                    assert(distinct_ok(ps, p, j0, k));
                } else {
                    assert(distinct_ok(ps, p, k, j0));
                }
            }
        }
    }
    assert forall|q: int, k1: int, k2: int| #[trigger] distinct_ok(ps2, q, k1, k2) by {
        if live(ps2, q) && 0 <= k1 < k2 < ps2[q]->0.children.len() {
            if q == p {
                let j1 = if k1 >= k {
                    k1 + 1
                } else {
                    k1
                };
                let j2 = if k2 >= k {
                    k2 + 1
                } else {
                    k2
                };
                assert(distinct_ok(ps, p, j1, j2));
            } else {
                assert(distinct_ok(ps, q, k1, k2));
            }
        }
    }
    assert forall|q: int| #[trigger] zombie_ok(ps2, q) by {
        assert(zombie_ok(ps, q));
    }
    assert forall|j: int| #[trigger] queued_ok(ps2, ready, j) by {
        assert(queued_ok(ps, ready, j));
    }
    assert forall|pid: int| #[trigger] listed_ok(ps2, ready, pid) by {
        assert(listed_ok(ps, ready, pid));
    }
    assert forall|pid: int| #[trigger] running_ok(ps2, current, pid) by {
        assert(running_ok(ps, current, pid));
    }
}

} // verus!
