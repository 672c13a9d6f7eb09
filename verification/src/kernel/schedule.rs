//! Who runs next: turns end, and the ready process with the least stride gets the next one.

use vstd::prelude::*;
use crate::kernel::{Kernel, lemma_update_slot, procs, slot_files_ok, slot_ok};
use crate::sched::{lemma_pick_range, pick, pick_index};
use crate::task::{TaskControlBlock, TaskStatus};
use crate::tree::{in_state, lemma_dispatch, lemma_suspend, live, queued_ok};

verus! {

impl Kernel {
    /// The strides of the ready processes, in the order of the queue.
    pub open spec fn ready_strides(&self) -> Seq<u64> {
        Seq::new(self.ready@.len(), |k: int| self.tasks[self.ready[k] as int]->0.stride)
    }

    /// `self` is `before` after the `i`-th process of the queue left it to
    /// run; if it runs for the first time, the clock's reading is kept as
    /// the time it started.
    pub open spec fn dispatched(&self, before: Kernel, i: int) -> bool {
        let pid = before.ready[i];
        &&& *self == (Kernel { tasks: self.tasks, ready: self.ready, current: Some(pid), ..before })
        &&& self.ready@ == before.ready@.remove(i)
        &&& self.same_but_task(before, pid as int)
        &&& self.has(pid as int)
        &&& self.task(pid as int) == (TaskControlBlock {
            task_status: TaskStatus::Running,
            started: if before.task(pid as int).started is None {
                Some((before.clock_us / 1000) as usize)
            } else {
                before.task(pid as int).started
            },
            ..before.task(pid as int)
        })
    }

    /// `self` is `before` after the scheduler had its say: if a process was
    /// ready, the one that the strides pick runs; if none was, nothing changed.
    pub open spec fn scheduled(&self, before: Kernel) -> bool {
        if before.ready@.len() == 0 {
            self.same_as(before)
        } else {
            self.dispatched(before, pick(before.ready_strides()))
        }
    }

    /// Lets the ready process with the least stride run; of several such,
    /// the one that waited longest.
    pub fn run_next(&mut self)
        requires
            old(self).wf(),
            old(self).current is None,
        ensures
            final(self).wf(),
            final(self).scheduled(*old(self)),
    {
        if self.ready.len() == 0 {
            return ;
        }
        let ghost ts0 = self.tasks@;
        let ghost ready0 = self.ready@;
        let ghost files = self.files@;
        let mut strides: Vec<u64> = Vec::new();
        let mut k: usize = 0;
        while k < self.ready.len()
            invariant
                k <= self.ready.len(),
                self.wf(),
                strides@ == self.ready_strides().take(k as int),
            decreases self.ready.len() - k,
        {
            let pid: usize = self.ready[k];
            proof {
                assert(queued_ok(procs(self.tasks@), self.ready@, k as int));
            }
            strides.push(self.task_ref(pid).stride);
            k = k + 1;
            assert(strides@ =~= self.ready_strides().take(k as int));
        }
        assert(strides@ =~= self.ready_strides());
        let i: usize = pick_index(&strides);
        let pid: usize = self.ready.remove(i);
        let now_ms: usize = self.clock_us / 1000;
        proof {
            assert(queued_ok(procs(ts0), ready0, i as int));
            assert(slot_ok(ts0, pid as int));
            assert(slot_files_ok(ts0, pid as int, files));
        }
        match &mut self.tasks[pid] {
            Some(t) => {
                t.task_status = TaskStatus::Running;
                if t.started.is_none() {
                    t.started = Some(now_ms);
                }
            },
            None => {},
        }
        self.current = Some(pid);
        proof {
            let t2 = self.tasks[pid as int]->0;
            lemma_update_slot(ts0, pid as int, t2, files);
            assert(self.tasks@ =~= ts0.update(pid as int, Some(t2)));
            assert(procs(self.tasks@) =~= procs(ts0).update(
                pid as int,
                Some(in_state(procs(ts0)[pid as int]->0, TaskStatus::Running)),
            ));
            lemma_dispatch(procs(ts0), ready0, i as int);
        }
    }

    /// `self` is `before` after the running process gave up the processor:
    /// it is ready again, last in the queue, its stride grown by its pass,
    /// wrapping around; nobody runs.
    pub open spec fn suspended(&self, before: Kernel) -> bool {
        let p = before.current->0;
        &&& *self == (Kernel { tasks: self.tasks, ready: self.ready, current: None, ..before })
        &&& self.ready@ == before.ready@.push(p)
        &&& self.same_but_task(before, p as int)
        &&& self.has(p as int)
        &&& self.task(p as int) == (TaskControlBlock {
            task_status: TaskStatus::Ready,
            stride: before.task(p as int).stride.wrapping_add(before.task(p as int).pass),
            ..before.task(p as int)
        })
    }

    /// Ends the turn of the running process.
    pub fn suspend_current(&mut self)
        requires
            old(self).wf(),
            old(self).running(),
        ensures
            final(self).wf(),
            final(self).suspended(*old(self)),
    {
        let p: usize = self.current.unwrap();
        let ghost ts0 = self.tasks@;
        let ghost ready0 = self.ready@;
        let ghost files = self.files@;
        proof {
            assert(live(procs(ts0), p as int));
            assert(slot_ok(ts0, p as int));
            assert(slot_files_ok(ts0, p as int, files));
        }
        match &mut self.tasks[p] {
            Some(t) => {
                t.task_status = TaskStatus::Ready;
                t.stride = t.stride.wrapping_add(t.pass);
            },
            None => {},
        }
        self.ready.push(p);
        self.current = None;
        proof {
            let t2 = self.tasks[p as int]->0;
            lemma_update_slot(ts0, p as int, t2, files);
            assert(self.tasks@ =~= ts0.update(p as int, Some(t2)));
            assert(procs(self.tasks@) =~= procs(ts0).update(
                p as int,
                Some(in_state(procs(ts0)[p as int]->0, TaskStatus::Ready)),
            ));
            lemma_suspend(procs(ts0), ready0, p);
        }
    }

    /// Ends the turn of the running process and lets the scheduler choose
    /// who runs next; that may be the same process again.
    pub fn suspend_current_and_run_next(&mut self)
        requires
            old(self).wf(),
            old(self).running(),
        ensures
            final(self).wf(),
            exists|mid: Kernel|
                #[trigger] mid.suspended(*old(self)) && mid.wf() && final(self).scheduled(mid),
            final(self).running(),
    {
        self.suspend_current();
        let ghost mid = *self;
        self.run_next();
        proof {
            assert(mid.suspended(*old(self)));
            lemma_pick_range(mid.ready_strides());
        }
    }
}

} // verus!
