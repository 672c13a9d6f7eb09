//! The life of processes: creation, a new program, the end, and collection by the parent.

use vstd::prelude::*;
use crate::config::{MAX_PID, ROOT_PID};
use crate::error::KernelError;
use crate::kernel::{
    desc_ok, Kernel, lemma_update_local, lemma_update_slot, proc_view, procs, slot_files_ok,
    slot_ok, task_files_ok,
};
use crate::kernel::files::{holds, lemma_released_all, released_all, without_files_of};
use crate::loader::{from_image, ProgramImage};
use crate::task::{TaskControlBlock, TaskStatus};
use crate::tree::{
    child_ok, distinct_ok, in_state, lemma_add_child, lemma_become_zombie, lemma_push_empty,
    lemma_reap, lemma_reparent, lists, live, parent_ok, reaped, reparented, with_child,
};

verus! {

/// The first empty slot of `ts` at or after `from`, or the length of `ts`.
pub open spec fn first_empty(ts: Seq<Option<TaskControlBlock>>, from: int) -> int
    decreases ts.len() - from,
{
    if from < 0 || from >= ts.len() {
        ts.len() as int
    } else if ts[from] is None {
        from
    } else {
        first_empty(ts, from + 1)
    }
}

/// The pid that the next new process gets: the lowest positive one that nobody has.
pub open spec fn free_pid(ts: Seq<Option<TaskControlBlock>>) -> int {
    first_empty(ts, 1)
}

/// What `first_empty` finds is an empty slot at or after `from`, or the end of the table.
pub proof fn lemma_first_empty(ts: Seq<Option<TaskControlBlock>>, from: int)
    requires
        0 <= from,
    ensures
        from <= first_empty(ts, from) || first_empty(ts, from) == ts.len(),
        first_empty(ts, from) <= ts.len(),
        first_empty(ts, from) < ts.len() ==> ts[first_empty(ts, from)] is None,
    decreases ts.len() - from,
{
    if from < ts.len() && ts[from] is Some {
        lemma_first_empty(ts, from + 1);
    }
}

/// A wait for `filter` takes the child `pid`: -1 takes any child, a pid only that one.
pub open spec fn pid_matches(filter: int, pid: usize) -> bool {
    filter == -1 || filter == pid
}

/// The place of the first of `kids`, at or after `from`, that is a zombie
/// and that `filter` lets through; the length of `kids` if there is none.
pub open spec fn first_zombie(
    ts: Seq<Option<TaskControlBlock>>,
    kids: Seq<usize>,
    filter: int,
    from: int,
) -> int
    decreases kids.len() - from,
{
    if from < 0 || from >= kids.len() {
        kids.len() as int
    } else if pid_matches(filter, kids[from]) && ts[kids[from] as int]->0.task_status
        == TaskStatus::Zombie {
        from
    } else {
        first_zombie(ts, kids, filter, from + 1)
    }
}

/// What a wait for `filter` answers to a process whose children are `kids`:
/// `NotFound` if the filter lets none of them through; `NotReady` if it
/// does, but none of those is a zombie; else the place of the first that is.
pub open spec fn wait_outcome(ts: Seq<Option<TaskControlBlock>>, kids: Seq<usize>, filter: int) -> Result<
    int,
    KernelError,
> {
    if !(exists|j: int| 0 <= j < kids.len() && pid_matches(filter, #[trigger] kids[j])) {
        Err(KernelError::NotFound)
    } else if first_zombie(ts, kids, filter, 0) >= kids.len() {
        Err(KernelError::NotReady)
    } else {
        Ok(first_zombie(ts, kids, filter, 0))
    }
}

impl Kernel {
    /// The pid that the next new process gets.
    pub fn find_free_pid(&self) -> (c: usize)
        requires
            self.tasks.len() >= 1,
        ensures
            c == free_pid(self.tasks@),
            1 <= c <= self.tasks.len(),
            c < self.tasks.len() ==> self.tasks[c as int] is None,
    {
        let mut i: usize = 1;
        while i < self.tasks.len()
            invariant
                1 <= i <= self.tasks.len(),
                free_pid(self.tasks@) == first_empty(self.tasks@, i as int),
            decreases self.tasks.len() - i,
        {
            if self.tasks[i].is_none() {
                return i;
            }
            i = i + 1;
        }
        i
    }

    /// `self` is `before` with the new process `child` in the slot of its
    /// pid, listed last among the children of the running process and
    /// queued last among the ready ones.
    pub open spec fn installed(&self, before: Kernel, child: TaskControlBlock) -> bool {
        let c = child.pid as int;
        let p = before.current->0 as int;
        &&& *self == (Kernel { tasks: self.tasks, ready: self.ready, ..before })
        &&& self.ready@ == before.ready@.push(child.pid)
        &&& self.tasks.len() == if c < before.tasks.len() {
            before.tasks.len() as int
        } else {
            c + 1
        }
        &&& self.tasks[c] == Some(child)
        &&& self.has(p)
        &&& self.task(p).children@ == before.task(p).children@.push(child.pid)
        &&& self.task(p).same_but_children(before.task(p))
        &&& forall|q: int|
            0 <= q < before.tasks.len() && q != c && q != p ==> self.tasks[q] == before.tasks[q]
    }

    /// Puts the new process `child` into the table, lists it with the running
    /// process, its parent, and queues it.
    pub fn install(&mut self, child: TaskControlBlock)
        requires
            old(self).wf(),
            old(self).running(),
            child.wf(),
            child.pid == free_pid(old(self).tasks@),
            child.pid <= MAX_PID,
            child.parent == old(self).current,
            child.children@.len() == 0,
            child.task_status == TaskStatus::Ready,
            task_files_ok(child, old(self).files@),
        ensures
            final(self).wf(),
            final(self).installed(*old(self), child),
    {
        let c: usize = child.pid;
        let p: usize = self.current.unwrap();
        let ghost ts0 = self.tasks@;
        let ghost files = self.files@;
        proof {
            lemma_first_empty(ts0, 1);
            assert(live(procs(ts0), p as int));
            assert(slot_ok(ts0, p as int));
        }
        if c == self.tasks.len() {
            self.tasks.push(None);
            proof {
                let ts1 = self.tasks@;
                assert(procs(ts1) =~= procs(ts0).push(None));
                lemma_push_empty(procs(ts0), self.ready@, self.current);
                assert forall|q: int| #[trigger] slot_ok(ts1, q) by {
                    assert(slot_ok(ts0, q));
                }
                assert forall|q: int| #[trigger] slot_files_ok(ts1, q, files) by {
                    assert(slot_files_ok(ts0, q, files));
                }
            }
        }
        let ghost ts1 = self.tasks@;
        let ghost ready1 = self.ready@;
        assert(ts1[c as int] is None);
        assert(p != c);
        self.tasks[c] = Some(child);
        match &mut self.tasks[p] {
            Some(t) => {
                t.children.push(c);
            },
            None => {},
        }
        self.ready.push(c);
        proof {
            let ts3 = self.tasks@;
            let parent2 = ts3[p as int]->0;
            assert(parent2.children@ == ts1[p as int]->0.children@.push(c));
            assert(child.children@ =~= Seq::<usize>::empty());
            assert(ts3[c as int] == Some(child));
            assert(parent2.parent == ts1[p as int]->0.parent);
            assert(parent2.task_status == ts1[p as int]->0.task_status);
            let want = with_child(procs(ts1), p, c);
            assert(procs(ts3).len() == want.len());
            assert forall|q: int| 0 <= q < want.len() implies procs(ts3)[q] == want[q] by {
                if q != c && q != p {
                    assert(ts3[q] == ts1[q]);
                }
            }
            assert(procs(ts3) =~= want);
            lemma_add_child(procs(ts1), ready1, self.current, p, c);
            assert forall|q: int| #[trigger] slot_ok(ts3, q) by {
                assert(slot_ok(ts1, q));
            }
            assert(slot_files_ok(ts1, p as int, files));
            assert forall|q: int| #[trigger] slot_files_ok(ts3, q, files) by {
                assert(slot_files_ok(ts1, q, files));
            }
        }
    }

    /// Forks the running process. The child is a copy of its parent that
    /// finds 0 where the parent finds the child's pid. `None`, and nothing
    /// changed, if no pid is left.
    pub fn fork(&mut self) -> (r: Option<usize>)
        requires
            old(self).wf(),
            old(self).running(),
        ensures
            final(self).wf(),
            r is Some <==> free_pid(old(self).tasks@) <= MAX_PID,
            r matches Some(c) ==> {
                &&& c == free_pid(old(self).tasks@)
                &&& c != ROOT_PID
                &&& final(self).has(c as int)
                &&& final(self).task(c as int).forked_from(old(self).cur(), c)
                &&& final(self).installed(*old(self), final(self).task(c as int))
            },
            r is None ==> *final(self) == *old(self),
    {
        let c: usize = self.find_free_pid();
        if c > MAX_PID {
            return None;
        }
        let p: usize = self.current.unwrap();
        proof {
            assert(live(procs(self.tasks@), p as int));
            assert(slot_ok(self.tasks@, p as int));
            assert(slot_files_ok(self.tasks@, p as int, self.files@));
            assert(live(procs(self.tasks@), ROOT_PID as int));
        }
        let child = self.task_ref(p).fork(c);
        proof {
            let files = self.files@;
            assert(task_files_ok(child, files)) by {
                assert forall|fd: int| 0 <= fd < child.fd_table.len() implies desc_ok(
                    #[trigger] child.fd_table[fd],
                    files,
                ) by {
                    assert(desc_ok(self.task(p as int).fd_table[fd], files));
                }
            }
        }
        self.install(child);
        Some(c)
    }

    /// Starts the program of `image` in a new child of the running process,
    /// to the effect of a fork and a new program for the child, without the
    /// copy of memory in between: the descriptor slots of the child name the
    /// open files that the slots of its parent name. `None`, and nothing
    /// changed, if the image cannot be loaded or no pid is left.
    pub fn spawn(&mut self, image: &ProgramImage) -> (r: Option<usize>)
        requires
            old(self).wf(),
            old(self).running(),
        ensures
            final(self).wf(),
            r is Some <==> image.valid() && free_pid(old(self).tasks@) <= MAX_PID,
            r matches Some(c) ==> {
                &&& c == free_pid(old(self).tasks@)
                &&& c != ROOT_PID
                &&& final(self).has(c as int)
                &&& final(self).task(c as int).fresh_from(
                    *image,
                    c,
                    old(self).current,
                    old(self).cur().fd_table@,
                )
                &&& final(self).installed(*old(self), final(self).task(c as int))
            },
            r is None ==> *final(self) == *old(self),
    {
        let c: usize = self.find_free_pid();
        if c > MAX_PID {
            return None;
        }
        let loaded = match from_image(image) {
            Some(l) => l,
            None => {
                return None;
            },
        };
        let p: usize = self.current.unwrap();
        proof {
            assert(live(procs(self.tasks@), p as int));
            assert(slot_files_ok(self.tasks@, p as int, self.files@));
            assert(live(procs(self.tasks@), ROOT_PID as int));
        }
        let table = self.task_ref(p).share_fd_table();
        let child = TaskControlBlock::new(c, self.current, loaded, table);
        proof {
            let files = self.files@;
            assert(task_files_ok(child, files)) by {
                assert forall|fd: int| 0 <= fd < child.fd_table.len() implies desc_ok(
                    #[trigger] child.fd_table[fd],
                    files,
                ) by {
                    assert(desc_ok(self.task(p as int).fd_table[fd], files));
                }
            }
        }
        self.install(child);
        Some(c)
    }

    /// Replaces the program of the running process by that of `image`.
    /// `false`, and nothing changed, if the image cannot be loaded.
    pub fn exec(&mut self, image: &ProgramImage) -> (r: bool)
        requires
            old(self).wf(),
            old(self).running(),
        ensures
            final(self).wf(),
            r == image.valid(),
            !r ==> *final(self) == *old(self),
            r ==> {
                let p = old(self).current->0 as int;
                &&& final(self).same_but_tasks(*old(self))
                &&& final(self).same_but_task(*old(self), p)
                &&& final(self).has(p)
                &&& final(self).task(p).starts(*image)
                &&& final(self).task(p).same_but_program(old(self).task(p))
            },
    {
        let loaded = match from_image(image) {
            Some(l) => l,
            None => {
                return false;
            },
        };
        let p: usize = self.current.unwrap();
        let ghost ts0 = self.tasks@;
        let ghost files = self.files@;
        proof {
            assert(live(procs(ts0), p as int));
            assert(slot_ok(ts0, p as int));
            assert(slot_files_ok(ts0, p as int, files));
        }
        match &mut self.tasks[p] {
            Some(t) => {
                t.exec(loaded);
            },
            None => {},
        }
        proof {
            lemma_update_local(ts0, p as int, self.tasks[p as int]->0, files);
            assert(self.tasks@ =~= ts0.update(p as int, Some(self.tasks[p as int]->0)));
        }
        true
    }

    /// `self` is `before` after the running process exited with `code`: it
    /// is a zombie that holds the code, and nobody runs. Unless it is the
    /// root, its children are the root's now, listed after those that the
    /// root had, in their old order.
    pub open spec fn exited(&self, before: Kernel, code: i32) -> bool {
        let p = before.current->0 as int;
        let kids = before.task(p).children@;
        let root = ROOT_PID as int;
        &&& *self == (Kernel { tasks: self.tasks, ready: self.ready, current: None, ..before })
        &&& self.ready@ == before.ready@
        &&& self.tasks.len() == before.tasks.len()
        &&& self.has(p)
        &&& self.task(p).task_status == TaskStatus::Zombie
        &&& self.task(p).exit_code == code
        &&& self.task(p).same_but_exit(before.task(p))
        &&& if p == root {
            &&& self.task(p).children@ == kids
            &&& self.same_but_task(before, p)
        } else {
            &&& self.task(p).children@.len() == 0
            &&& self.has(root)
            &&& self.task(root).children@ == before.task(root).children@ + kids
            &&& self.task(root).same_but_children(before.task(root))
            &&& forall|j: int|
                0 <= j < kids.len() ==> #[trigger] self.tasks[kids[j] as int] == Some(
                    TaskControlBlock { parent: Some(ROOT_PID), ..before.task(kids[j] as int) },
                )
            &&& forall|q: int|
                0 <= q < before.tasks.len() && q != p && q != root && !lists(kids, q)
                    ==> #[trigger] self.tasks[q] == before.tasks[q]
        }
    }

    /// Ends the running process: it becomes a zombie that holds `code`
    /// until its parent collects it, and the root adopts its children.
    pub fn exit_current(&mut self, code: i32)
        requires
            old(self).wf(),
            old(self).running(),
        ensures
            final(self).wf(),
            final(self).exited(*old(self), code),
    {
        let p: usize = self.current.unwrap();
        let ghost before = *self;
        let ghost ps_old = procs(self.tasks@);
        let ghost kids = self.task(p as int).children@;
        let ghost root_kids = self.task(ROOT_PID as int).children@;
        let ghost files = self.files@;
        let ghost mut moved: int = 0;
        proof {
            assert(live(ps_old, p as int));
            assert(live(ps_old, ROOT_PID as int));
        }
        if p != ROOT_PID {
            assert(kids.subrange(0, kids.len() as int) =~= kids);
            assert(root_kids + kids.subrange(0, 0) =~= root_kids);
            loop
                invariant
                    self.wf(),
                    before.wf(),
                    ps_old == procs(before.tasks@),
                    files == self.files@,
                    p != ROOT_PID,
                    before.current == Some(p),
                    self.current == Some(p),
                    kids == before.task(p as int).children@,
                    root_kids == before.task(ROOT_PID as int).children@,
                    self.ready@ == before.ready@,
                    self.fs == before.fs,
                    self.files == before.files,
                    self.console == before.console,
                    self.clock_us == before.clock_us,
                    self.tasks.len() == before.tasks.len(),
                    0 <= moved <= kids.len(),
                    self.has(p as int),
                    self.has(ROOT_PID as int),
                    self.task(p as int).children@ == kids.subrange(moved, kids.len() as int),
                    self.task(p as int).same_but_children(before.task(p as int)),
                    self.task(ROOT_PID as int).children@ == root_kids + kids.subrange(0, moved),
                    self.task(ROOT_PID as int).same_but_children(before.task(ROOT_PID as int)),
                    forall|j: int|
                        0 <= j < moved ==> #[trigger] self.tasks[kids[j] as int] == Some(
                            TaskControlBlock { parent: Some(ROOT_PID), ..before.task(kids[j] as int) },
                        ),
                    forall|q: int|
                        0 <= q < before.tasks.len() && q != p && q != ROOT_PID && !lists(
                            kids.subrange(0, moved),
                            q,
                        ) ==> #[trigger] self.tasks[q] == before.tasks[q],
                ensures
                    self.task(p as int).children@.len() == 0,
                decreases kids.len() - moved,
            {
                if self.task_ref(p).children.len() == 0 {
                    break ;
                }
                let ghost ts0 = self.tasks@;
                let ghost ps0 = procs(ts0);
                proof {
                    lemma_reparent(ps0, self.ready@, self.current, p as int);
                    assert(child_ok(ps_old, p as int, moved));
                    assert(slot_ok(ts0, p as int));
                    assert(slot_ok(ts0, ROOT_PID as int));
                    assert(slot_files_ok(ts0, p as int, files));
                    assert(slot_files_ok(ts0, ROOT_PID as int, files));
                }
                let c: usize = match &mut self.tasks[p] {
                    Some(t) => t.children.remove(0),
                    None => 0,
                };
                proof {
                    assert(c == kids[moved]);
                    assert(slot_ok(ts0, c as int));
                    assert(slot_files_ok(ts0, c as int, files));
                    // the child was not moved before
                    assert forall|j: int| 0 <= j < moved implies kids[j] != c by {
                        assert(distinct_ok(ps_old, p as int, j, moved));
                    }
                    assert(!lists(kids.subrange(0, moved), c as int));
                    assert(ts0[c as int] == before.tasks[c as int]);
                }
                match &mut self.tasks[c] {
                    Some(t) => {
                        t.parent = Some(ROOT_PID);
                    },
                    None => {},
                }
                match &mut self.tasks[ROOT_PID] {
                    Some(t) => {
                        t.children.push(c);
                    },
                    None => {},
                }
                proof {
                    let ts3 = self.tasks@;
                    let tp = ts3[p as int]->0;
                    let tc = ts3[c as int]->0;
                    let tr = ts3[ROOT_PID as int]->0;
                    assert(ts3 =~= ts0.update(p as int, Some(tp)).update(c as int, Some(tc)).update(
                        ROOT_PID as int,
                        Some(tr),
                    ));
                    lemma_update_slot(ts0, p as int, tp, files);
                    lemma_update_slot(ts0.update(p as int, Some(tp)), c as int, tc, files);
                    lemma_update_slot(
                        ts0.update(p as int, Some(tp)).update(c as int, Some(tc)),
                        ROOT_PID as int,
                        tr,
                        files,
                    );
                    let want = reparented(ps0, p as int);
                    assert(procs(ts3).len() == want.len());
                    assert forall|q: int| 0 <= q < want.len() implies procs(ts3)[q] == want[q] by {
                        if q != c && q != p && q != ROOT_PID {
                            assert(ts3[q] == ts0[q]);
                        }
                    }
                    assert(procs(ts3) =~= want);
                    assert(tp.children@ =~= kids.subrange(moved + 1, kids.len() as int));
                    assert(tr.children@ =~= root_kids + kids.subrange(0, moved + 1));
                    assert forall|j: int| 0 <= j < moved + 1 implies #[trigger] ts3[kids[j] as int]
                        == Some(
                        TaskControlBlock { parent: Some(ROOT_PID), ..before.task(kids[j] as int) },
                    ) by {
                        assert(child_ok(ps_old, p as int, j));
                        assert(parent_ok(ps_old, kids[j] as int));
                        if j < moved {
                            assert(ts0[kids[j] as int] == Some(
                                TaskControlBlock {
                                    parent: Some(ROOT_PID),
                                    ..before.task(kids[j] as int)
                                },
                            ));
                        }
                    }
                    assert forall|q: int|
                        0 <= q < before.tasks.len() && q != p && q != ROOT_PID && !lists(
                            kids.subrange(0, moved + 1),
                            q,
                        ) implies #[trigger] ts3[q] == before.tasks[q] by {
                        assert(kids.subrange(0, moved + 1)[moved] == c);
                        assert(q != c);
                        if lists(kids.subrange(0, moved), q) {
                            let i = choose|i: int|
                                0 <= i < kids.subrange(0, moved).len() && #[trigger] kids.subrange(
                                    0,
                                    moved,
                                )[i] == q;
                            assert(kids.subrange(0, moved + 1)[i] == q);
                        }
                    }
                    moved = moved + 1;
                }
            }
            assert(moved == kids.len());
            assert(kids.subrange(0, moved) =~= kids);
        }
        let ghost ts0 = self.tasks@;
        let ghost ready0 = self.ready@;
        proof {
            assert(live(procs(ts0), p as int));
            assert(slot_ok(ts0, p as int));
            assert(slot_files_ok(ts0, p as int, files));
        }
        match &mut self.tasks[p] {
            Some(t) => {
                t.task_status = TaskStatus::Zombie;
                t.exit_code = code;
            },
            None => {},
        }
        self.current = None;
        proof {
            let t2 = self.tasks[p as int]->0;
            lemma_update_slot(ts0, p as int, t2, files);
            assert(self.tasks@ =~= ts0.update(p as int, Some(t2)));
            assert(procs(self.tasks@) =~= procs(ts0).update(
                p as int,
                Some(in_state(procs(ts0)[p as int]->0, TaskStatus::Zombie)),
            ));
            lemma_become_zombie(procs(ts0), ready0, p);
            if p != ROOT_PID {
                assert(self.task(p as int).children@.len() == 0);
                assert forall|j: int| 0 <= j < kids.len() implies #[trigger] self.tasks[kids[j] as int]
                    == Some(
                    TaskControlBlock { parent: Some(ROOT_PID), ..before.task(kids[j] as int) },
                ) by {
                    assert(child_ok(ps_old, p as int, j));
                    assert(parent_ok(ps_old, kids[j] as int));
                    assert(ts0[kids[j] as int] == Some(
                        TaskControlBlock { parent: Some(ROOT_PID), ..before.task(kids[j] as int) },
                    ));
                }
                assert forall|q: int|
                    0 <= q < before.tasks.len() && q != p && q != ROOT_PID && !lists(
                        kids,
                        q,
                    ) implies #[trigger] self.tasks[q] == before.tasks[q] by {
                    assert(ts0[q] == before.tasks[q]);
                }
            } else {
                assert(self.task(p as int).children@ == kids);
            }
        }
    }

    /// Ends the running process with `code` and lets the scheduler choose who runs next.
    pub fn exit_current_and_run_next(&mut self, code: i32)
        requires
            old(self).wf(),
            old(self).running(),
        ensures
            final(self).wf(),
            exists|mid: Kernel|
                #[trigger] mid.exited(*old(self), code) && mid.wf() && final(self).scheduled(mid),
    {
        self.exit_current(code);
        let ghost mid = *self;
        self.run_next();
        proof {
            assert(mid.exited(*old(self), code));
        }
    }

    /// What a wait of the running process for `filter` finds: the place,
    /// among its children, of the first zombie that the filter lets through.
    pub open spec fn wait_target(&self, filter: int) -> Result<int, KernelError> {
        wait_outcome(self.tasks@, self.cur().children@, filter)
    }

    /// Looks among the children of the running process for one to collect:
    /// any child if `filter` is -1, else the child of that pid.
    pub fn find_zombie_child(&self, filter: isize) -> (r: Result<usize, KernelError>)
        requires
            self.wf(),
            self.running(),
        ensures
            match r {
                Ok(k) => self.wait_target(filter as int) == Ok::<int, KernelError>(k as int),
                Err(e) => self.wait_target(filter as int) == Err::<int, KernelError>(e),
            },
            r matches Ok(k) ==> {
                &&& k < self.cur().children.len()
                &&& self.has(self.cur().children[k as int] as int)
                &&& self.task(self.cur().children[k as int] as int).task_status
                    == TaskStatus::Zombie
                &&& pid_matches(filter as int, self.cur().children[k as int])
            },
    {
        let p: usize = self.current.unwrap();
        proof {
            assert(live(procs(self.tasks@), p as int));
        }
        let kids = &self.task_ref(p).children;
        let mut matched: bool = false;
        let mut k: usize = 0;
        while k < kids.len()
            invariant
                self.wf(),
                self.current == Some(p),
                self.has(p as int),
                kids@ == self.task(p as int).children@,
                k <= kids.len(),
                first_zombie(self.tasks@, kids@, filter as int, 0) == first_zombie(
                    self.tasks@,
                    kids@,
                    filter as int,
                    k as int,
                ),
                matched <==> exists|j: int| 0 <= j < k && pid_matches(filter as int, #[trigger] kids[j]),
            decreases kids.len() - k,
        {
            let c: usize = kids[k];
            proof {
                assert(child_ok(procs(self.tasks@), p as int, k as int));
            }
            if filter == -1 || (filter >= 0 && filter as usize == c) {
                matched = true;
                if matches!(self.task_ref(c).task_status, TaskStatus::Zombie) {
                    proof {
                        assert(pid_matches(filter as int, kids[k as int]));
                        assert(self.tasks[kids[k as int] as int]->0.task_status
                            == TaskStatus::Zombie);
                        assert(first_zombie(self.tasks@, kids@, filter as int, k as int) == k);
                    }
                    return Ok(k);
                }
            }
            k = k + 1;
        }
        if matched {
            Err(KernelError::NotReady)
        } else {
            Err(KernelError::NotFound)
        }
    }

    /// `self` is `before` after the running process collected its `k`-th
    /// child: the child's slot is empty and its pid is free again, and the
    /// open files that only the child's descriptor slots named are closed.
    pub open spec fn collected(&self, before: Kernel, k: int) -> bool {
        let p = before.current->0 as int;
        let c = before.task(p).children[k] as int;
        &&& *self == (Kernel { tasks: self.tasks, files: self.files, ..before })
        &&& self.files@ == without_files_of(before.files@, self.tasks@, before.task(c).fd_table@)
        &&& self.tasks.len() == before.tasks.len()
        &&& self.tasks[c] is None
        &&& self.has(p)
        &&& self.task(p).children@ == before.task(p).children@.remove(k)
        &&& self.task(p).same_but_children(before.task(p))
        &&& forall|q: int|
            0 <= q < before.tasks.len() && q != p && q != c ==> #[trigger] self.tasks[q]
                == before.tasks[q]
    }

    /// Collects the `k`-th child of the running process, a zombie: takes it
    /// off the list of children, empties its slot, closes the open files
    /// that only its descriptor slots named, and returns its pid and exit code.
    pub fn reap(&mut self, k: usize) -> (r: (usize, i32))
        requires
            old(self).wf(),
            old(self).running(),
            k < old(self).cur().children.len(),
            old(self).task(old(self).cur().children[k as int] as int).task_status
                == TaskStatus::Zombie,
        ensures
            final(self).wf(),
            final(self).collected(*old(self), k as int),
            r.0 == old(self).cur().children[k as int],
            r.1 == old(self).task(r.0 as int).exit_code,
            r.0 != ROOT_PID,
            r.0 <= MAX_PID,
    {
        let p: usize = self.current.unwrap();
        let ghost ts0 = self.tasks@;
        let ghost ps0 = procs(ts0);
        let ghost files = self.files@;
        proof {
            assert(live(ps0, p as int));
            assert(child_ok(ps0, p as int, k as int));
            let z = ts0[p as int]->0.children[k as int] as int;
            assert(ps0[z] == Some(proc_view(ts0[z]->0)));
            lemma_reap(ps0, self.ready@, self.current, p as int, k as int);
            assert(slot_ok(ts0, p as int));
            assert(slot_files_ok(ts0, p as int, files));
        }
        let c: usize = match &mut self.tasks[p] {
            Some(t) => t.children.remove(k),
            None => 0,
        };
        let mut slot: Option<TaskControlBlock> = None;
        core::mem::swap(&mut self.tasks[c], &mut slot);
        let (code, table): (i32, Vec<Option<usize>>) = match slot {
            Some(t) => (t.exit_code, t.fd_table),
            None => (0, Vec::new()),
        };
        proof {
            let ts2 = self.tasks@;
            let tp = ts2[p as int]->0;
            assert(ts2 =~= ts0.update(p as int, Some(tp)).update(c as int, None));
            let want = reaped(ps0, p as int, k as int);
            assert(procs(ts2).len() == want.len());
            assert forall|q: int| 0 <= q < want.len() implies procs(ts2)[q] == want[q] by {
                if q != c && q != p {
                    assert(ts2[q] == ts0[q]);
                }
            }
            assert(procs(ts2) =~= want);
            assert forall|q: int| #[trigger] slot_ok(ts2, q) by {
                assert(slot_ok(ts0, q));
            }
            assert forall|q: int| #[trigger] slot_files_ok(ts2, q, files) by {
                assert(slot_files_ok(ts0, q, files));
            }
            assert(slot_ok(ts0, c as int));
        }
        let ghost mid = *self;
        let mut i: usize = 0;
        assert(table@.take(0) =~= Seq::<Option<usize>>::empty());
        while i < table.len()
            invariant
                i <= table.len(),
                self.wf(),
                self.tasks == mid.tasks,
                self.ready == mid.ready,
                self.current == mid.current,
                self.fs == mid.fs,
                self.console == mid.console,
                self.clock_us == mid.clock_us,
                self.files@ == released_all(mid.files@, mid.tasks@, table@.take(i as int)),
            decreases table.len() - i,
        {
            proof {
                assert(table@.take(i + 1).drop_last() =~= table@.take(i as int));
            }
            match table[i] {
                Some(h) => {
                    self.release(h);
                },
                None => {},
            }
            i = i + 1;
        }
        proof {
            assert(table@.take(i as int) =~= table@);
            lemma_released_all(mid.files@, mid.tasks@, table@);
        }
        (c, code)
    }
}

/// After a fork, parent and child hold the same bytes, each in memory of
/// its own: whatever one of them, `writer`, does to its memory afterwards,
/// the other still holds the bytes of the moment of the fork.
pub proof fn lemma_fork_memory_apart(
    before: Kernel,
    forked: Kernel,
    after: Kernel,
    child: usize,
    writer: usize,
)
    requires
        before.wf(),
        before.running(),
        forked.has(child as int),
        forked.task(child as int).forked_from(before.cur(), child),
        forked.installed(before, forked.task(child as int)),
        writer == child || writer == before.current->0,
        after.same_but_task(forked, writer as int),
    ensures
        child != before.current->0,
        forked.task(child as int).memory_set@ == forked.task(
            before.current->0 as int,
        ).memory_set@,
        writer == child ==> after.task(before.current->0 as int).memory_set@
            == before.cur().memory_set@,
        writer != child ==> after.task(child as int).memory_set@ == before.cur().memory_set@,
{
    let p = before.current->0 as int;
    assert(live(procs(before.tasks@), p));
    assert(forked.task(p).children@.len() == before.task(p).children@.len() + 1);
}

/// A child that was collected is no child any more: a wait for its pid
/// finds nobody, whatever else the parent's slot holds by then.
pub proof fn lemma_collected_is_gone(before: Kernel, after: Kernel, k: int)
    requires
        before.wf(),
        before.running(),
        0 <= k < before.cur().children.len(),
        after.current == before.current,
        after.cur().children@ == before.cur().children@.remove(k),
    ensures
        after.wait_target(before.cur().children[k] as int) == Err::<int, KernelError>(
            KernelError::NotFound,
        ),
{
    let p = before.current->0 as int;
    let kids = before.cur().children@;
    let c = kids[k];
    let kids2 = kids.remove(k);
    assert(live(procs(before.tasks@), p));
    assert forall|j: int| 0 <= j < kids2.len() implies !pid_matches(c as int, #[trigger] kids2[j]) by {
        if j < k {
            assert(distinct_ok(procs(before.tasks@), p, j, k));
        } else {
            assert(distinct_ok(procs(before.tasks@), p, k, j + 1));
        }
    }
}

} // verus!
