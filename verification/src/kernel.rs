//! The kernel: the process table, the ready queue, the running process, the
//! files and the clock.

use vstd::prelude::*;
use crate::config::{DEFAULT_PRIORITY, MAX_PID, MAX_SYSCALL_NUM, ROOT_PID};
use crate::fs::{
    Console, CONSOLE_IN, console_in, console_out, CONSOLE_OUT, FileHandle, FileKind, FileSystem,
    FIRST_FILE,
};
use crate::loader::{from_image, ProgramImage};
use crate::task::{counted, TaskControlBlock, TaskStatus};
use crate::tree::{current_wf, live, ProcTable, ProcView, ready_wf, tree_wf};

pub mod files;
pub mod memory;
pub mod process;
pub mod schedule;

verus! {

/// What the tree and the scheduler see of `t`.
pub open spec fn proc_view(t: TaskControlBlock) -> ProcView {
    ProcView { parent: t.parent, children: t.children@, status: t.task_status }
}

/// What the tree and the scheduler see of the table `ts`.
pub open spec fn procs(ts: Seq<Option<TaskControlBlock>>) -> ProcTable {
    Seq::new(
        ts.len(),
        |i: int|
            match ts[i] {
                Some(t) => Some(proc_view(t)),
                None => None,
            },
    )
}

/// If slot `pid` holds a process, it holds it under its own pid, well formed.
pub open spec fn slot_ok(ts: Seq<Option<TaskControlBlock>>, pid: int) -> bool {
    0 <= pid < ts.len() && ts[pid] is Some ==> ts[pid]->0.pid == pid && ts[pid]->0.wf()
}

/// Every slot that holds a process holds it under its own pid, well formed;
/// no process has pid 0.
pub open spec fn table_wf(ts: Seq<Option<TaskControlBlock>>) -> bool {
    &&& 2 <= ts.len() <= MAX_PID + 1
    &&& ts[0] is None
    &&& forall|pid: int| #[trigger] slot_ok(ts, pid)
}

/// A descriptor slot is empty or names an open file.
pub open spec fn desc_ok(d: Option<usize>, files: Seq<Option<FileHandle>>) -> bool {
    d matches Some(h) ==> h < files.len() && files[h as int] is Some
}

/// Every descriptor slot of `t` is empty or names an open file.
pub open spec fn task_files_ok(t: TaskControlBlock, files: Seq<Option<FileHandle>>) -> bool {
    forall|fd: int| 0 <= fd < t.fd_table.len() ==> desc_ok(#[trigger] t.fd_table[fd], files)
}

/// If slot `pid` holds a process, its descriptor slots are empty or name open files.
pub open spec fn slot_files_ok(
    ts: Seq<Option<TaskControlBlock>>,
    pid: int,
    files: Seq<Option<FileHandle>>,
) -> bool {
    0 <= pid < ts.len() && ts[pid] is Some ==> task_files_ok(ts[pid]->0, files)
}

/// Every descriptor slot of every process is empty or names an open file.
pub open spec fn files_wf(ts: Seq<Option<TaskControlBlock>>, files: Seq<Option<FileHandle>>) -> bool {
    forall|pid: int| #[trigger] slot_files_ok(ts, pid, files)
}

/// If `h` is an open file, it is a console stream in its place or, in
/// another place, a file of one of the first `inodes` inodes.
pub open spec fn file_ok(files: Seq<Option<FileHandle>>, h: int, inodes: int) -> bool {
    0 <= h < files.len() && files[h] is Some ==> if h == CONSOLE_IN {
        files[h]->0 == console_in()
    } else if h == CONSOLE_OUT {
        files[h]->0 == console_out()
    } else {
        files[h]->0.kind == FileKind::Regular && files[h]->0.inode < inodes
    }
}

/// The console streams are open in their places, and every other open file
/// is a file of an inode that exists.
pub open spec fn open_files_wf(files: Seq<Option<FileHandle>>, inodes: int) -> bool {
    &&& files.len() >= FIRST_FILE
    &&& files[CONSOLE_IN as int] is Some
    &&& files[CONSOLE_OUT as int] is Some
    &&& forall|h: int| #[trigger] file_ok(files, h, inodes)
}

/// The whole state of the kernel.
pub struct Kernel {
    /// The process table; the process of pid `p` is in slot `p`, and slot 0 is always empty.
    pub tasks: Vec<Option<TaskControlBlock>>,
    /// The ready processes, longest waiting first.
    pub ready: Vec<usize>,
    /// The running process.
    pub current: Option<usize>,
    pub fs: FileSystem,
    /// The open files. Descriptor slots name them by their place here; the
    /// console's input and output are open in the first two places for good.
    pub files: Vec<Option<FileHandle>>,
    pub console: Console,
    /// The last reading of the timer, in microseconds.
    pub clock_us: usize,
}

impl Kernel {
    /// The kernel is sound: the table, the tree, the queue, the running
    /// process, the descriptor slots, the open files and the file system are.
    pub open spec fn wf(&self) -> bool {
        &&& table_wf(self.tasks@)
        &&& tree_wf(procs(self.tasks@))
        &&& ready_wf(procs(self.tasks@), self.ready@)
        &&& current_wf(procs(self.tasks@), self.current)
        &&& files_wf(self.tasks@, self.files@)
        &&& open_files_wf(self.files@, self.fs.inodes.len() as int)
        &&& self.fs.wf()
    }

    /// Slot `pid` of the table holds a process.
    pub open spec fn has(&self, pid: int) -> bool {
        0 <= pid < self.tasks.len() && self.tasks[pid] is Some
    }

    /// The process of pid `pid`.
    pub open spec fn task(&self, pid: int) -> TaskControlBlock {
        self.tasks[pid]->0
    }

    /// A process is running; its calls can be served.
    pub open spec fn running(&self) -> bool {
        self.current is Some
    }

    /// The running process.
    pub open spec fn cur(&self) -> TaskControlBlock {
        self.tasks[self.current->0 as int]->0
    }

    /// Everything but the process table is as in `other`.
    pub open spec fn same_but_tasks(&self, other: Kernel) -> bool {
        *self == (Kernel { tasks: self.tasks, ..other })
    }

    /// The process table is as in `other` but for the process `pid`.
    pub open spec fn same_but_task(&self, other: Kernel, pid: int) -> bool {
        &&& self.tasks.len() == other.tasks.len()
        &&& forall|q: int| 0 <= q < self.tasks.len() && q != pid ==> self.tasks[q] == other.tasks[q]
    }

    /// Nothing that a contract can tell apart differs from `other`.
    pub open spec fn same_as(&self, other: Kernel) -> bool {
        &&& self.tasks@ == other.tasks@
        &&& self.ready@ == other.ready@
        &&& self.current == other.current
        &&& self.fs.dir@ == other.fs.dir@
        &&& self.fs.inodes@ == other.fs.inodes@
        &&& self.files@ == other.files@
        &&& self.console.input@ == other.console.input@
        &&& self.console.output@ == other.console.output@
        &&& self.clock_us == other.clock_us
    }

    /// A kernel whose one process runs the program of `image`, with an empty
    /// directory, a silent console and the clock at zero. `None` if the
    /// image cannot be loaded.
    pub fn new(image: &ProgramImage) -> (r: Option<Kernel>)
        ensures
            r is Some <==> image.valid(),
            r matches Some(k) ==> {
                &&& k.wf()
                &&& k.current == Some(ROOT_PID)
                &&& k.tasks.len() == 2
                &&& k.has(ROOT_PID as int)
                &&& k.ready@.len() == 0
                &&& k.clock_us == 0
                &&& k.fs.dir@.len() == 0
                &&& k.files@ == seq![Some(console_in()), Some(console_out())]
                &&& k.console.input@.len() == 0
                &&& k.console.output@.len() == 0
                &&& k.task(ROOT_PID as int).starts(*image)
                &&& k.task(ROOT_PID as int).pid == ROOT_PID
                &&& k.task(ROOT_PID as int).task_status == TaskStatus::Running
                &&& k.task(ROOT_PID as int).started == Some(0usize)
                &&& k.task(ROOT_PID as int).parent is None
                &&& k.task(ROOT_PID as int).children@.len() == 0
                &&& k.task(ROOT_PID as int).exit_code == 0
                &&& k.task(ROOT_PID as int).stride == 0
                &&& k.task(ROOT_PID as int).priority == DEFAULT_PRIORITY
                &&& k.task(ROOT_PID as int).syscall_times@ == Seq::new(MAX_SYSCALL_NUM as nat, |i: int| 0u32)
                &&& k.task(ROOT_PID as int).fd_table@ == TaskControlBlock::std_files()
            },
    {
        let loaded = match from_image(image) {
            Some(l) => l,
            None => {
                return None;
            },
        };
        let mut root = TaskControlBlock::new(
            ROOT_PID,
            None,
            loaded,
            TaskControlBlock::std_fd_table(),
        );
        root.task_status = TaskStatus::Running;
        root.started = Some(0);
        let mut tasks: Vec<Option<TaskControlBlock>> = Vec::new();
        tasks.push(None);
        tasks.push(Some(root));
        let mut files: Vec<Option<FileHandle>> = Vec::new();
        files.push(
            Some(
                FileHandle {
                    kind: FileKind::Stdin,
                    inode: 0,
                    readable: true,
                    writable: false,
                    offset: 0,
                },
            ),
        );
        files.push(
            Some(
                FileHandle {
                    kind: FileKind::Stdout,
                    inode: 0,
                    readable: false,
                    writable: true,
                    offset: 0,
                },
            ),
        );
        let k = Kernel {
            tasks,
            ready: Vec::new(),
            current: Some(ROOT_PID),
            fs: FileSystem::new(),
            files,
            console: Console { input: Vec::new(), output: Vec::new() },
            clock_us: 0,
        };
        proof {
            let ps = procs(k.tasks@);
            assert(ps[ROOT_PID as int] == Some(proc_view(k.tasks[ROOT_PID as int]->0)));
            assert(tree_wf(ps));
            assert(ready_wf(ps, k.ready@));
            assert(current_wf(ps, k.current));
            assert(table_wf(k.tasks@)) by {
                assert forall|pid: int| #[trigger] slot_ok(k.tasks@, pid) by {}
            }
            assert(task_files_ok(k.tasks[ROOT_PID as int]->0, k.files@));
            assert(files_wf(k.tasks@, k.files@));
            assert(open_files_wf(k.files@, 0)) by {
                assert forall|h: int| #[trigger] file_ok(k.files@, h, 0) by {}
            }
        }
        assert(k.files@ =~= seq![Some(console_in()), Some(console_out())]);
        Some(k)
    }

    /// The process of pid `pid`.
    pub fn task_ref(&self, pid: usize) -> (t: &TaskControlBlock)
        requires
            self.has(pid as int),
        ensures
            *t == self.task(pid as int),
    {
        self.tasks[pid].as_ref().unwrap()
    }

    /// Takes a reading of the timer. The clock never runs backwards.
    pub fn tick(&mut self, now_us: usize)
        requires
            old(self).wf(),
        ensures
            final(self).wf(),
            *final(self) == (Kernel {
                clock_us: if now_us > old(self).clock_us {
                    now_us
                } else {
                    old(self).clock_us
                },
                ..*old(self)
            }),
    {
        if now_us > self.clock_us {
            self.clock_us = now_us;
        }
    }

    /// Counts one more call of system call `id` for the running process.
    pub fn count_syscall(&mut self, id: usize)
        requires
            old(self).wf(),
            old(self).running(),
        ensures
            final(self).wf(),
            final(self).same_but_tasks(*old(self)),
            final(self).same_but_task(*old(self), old(self).current->0 as int),
            final(self).has(old(self).current->0 as int),
            final(self).cur().same_but_counts(old(self).cur()),
            final(self).cur().syscall_times@ == crate::task::counted(
                old(self).cur().syscall_times@,
                id as int,
            ),
    {
        let p: usize = self.current.unwrap();
        let ghost before = *self;
        proof {
            assert(live(procs(self.tasks@), p as int));
            assert(slot_ok(self.tasks@, p as int));
        }
        match &mut self.tasks[p] {
            Some(t) => {
                t.count_syscall(id);
            },
            None => {},
        }
        proof {
            lemma_task_changed(before, *self, p as int);
        }
    }
}

/// Replacing a process by one with the same parent, children and state, well
/// formed and with descriptor slots that name open files, keeps the kernel sound.
pub proof fn lemma_update_local(
    ts: Seq<Option<TaskControlBlock>>,
    pid: int,
    t: TaskControlBlock,
    files: Seq<Option<FileHandle>>,
)
    requires
        table_wf(ts),
        files_wf(ts, files),
        0 <= pid < ts.len(),
        ts[pid] is Some,
        t.wf(),
        t.pid == pid,
        proc_view(t) == proc_view(ts[pid]->0),
        task_files_ok(t, files),
    ensures
        table_wf(ts.update(pid, Some(t))),
        files_wf(ts.update(pid, Some(t)), files),
        procs(ts.update(pid, Some(t))) == procs(ts),
{
    let ts2 = ts.update(pid, Some(t));
    assert(procs(ts2) =~= procs(ts));
    assert forall|q: int| #[trigger] slot_ok(ts2, q) by {
        assert(slot_ok(ts, q));
    }
    assert forall|q: int| #[trigger] slot_files_ok(ts2, q, files) by {
        assert(slot_files_ok(ts, q, files));
    }
}

/// Replacing a process by one of the same pid, well formed and with
/// descriptor slots that name open files, keeps the table and the slots sound.
pub proof fn lemma_update_slot(
    ts: Seq<Option<TaskControlBlock>>,
    pid: int,
    t: TaskControlBlock,
    files: Seq<Option<FileHandle>>,
)
    requires
        table_wf(ts),
        files_wf(ts, files),
        0 < pid < ts.len(),
        t.wf(),
        t.pid == pid,
        task_files_ok(t, files),
    ensures
        table_wf(ts.update(pid, Some(t))),
        files_wf(ts.update(pid, Some(t)), files),
{
    let ts2 = ts.update(pid, Some(t));
    assert forall|q: int| #[trigger] slot_ok(ts2, q) by {
        assert(slot_ok(ts, q));
    }
    assert forall|q: int| #[trigger] slot_files_ok(ts2, q, files) by {
        assert(slot_files_ok(ts, q, files));
    }
}

/// A kernel stays sound when one process changes in what is its own: not
/// its pid, parent, children or state, and its descriptor slots are as
/// they were, or are empty or name open files.
pub proof fn lemma_task_changed(before: Kernel, after: Kernel, p: int)
    requires
        before.wf(),
        before.has(p),
        after.same_but_task(before, p),
        after.has(p),
        after.task(p).wf(),
        after.task(p).pid == p,
        proc_view(after.task(p)) == proc_view(before.task(p)),
        after.ready == before.ready,
        after.current == before.current,
        after.fs == before.fs,
        after.files == before.files,
        after.task(p).fd_table@ == before.task(p).fd_table@ || task_files_ok(
            after.task(p),
            after.files@,
        ),
    ensures
        after.wf(),
{
    let ts0 = before.tasks@;
    let t = after.task(p);
    let files = before.files@;
    assert(after.tasks@ =~= ts0.update(p, Some(t)));
    assert(task_files_ok(t, files)) by {
        if t.fd_table@ == before.task(p).fd_table@ {
            assert(slot_files_ok(ts0, p, files));
            assert forall|fd: int| 0 <= fd < t.fd_table.len() implies desc_ok(
                #[trigger] t.fd_table[fd],
                files,
            ) by {
                assert(desc_ok(before.task(p).fd_table[fd], files));
            }
        }
    }
    lemma_update_local(ts0, p, t, files);
}

/// A kernel stays sound when only the file system changes, stays sound
/// and loses no inode.
pub proof fn lemma_fs_changed(before: Kernel, after: Kernel)
    requires
        before.wf(),
        after.tasks@ == before.tasks@,
        after.ready@ == before.ready@,
        after.current == before.current,
        after.files@ == before.files@,
        after.fs.wf(),
        before.fs.inodes.len() <= after.fs.inodes.len(),
    ensures
        after.wf(),
{
    let files = before.files@;
    assert forall|h: int| #[trigger] file_ok(files, h, after.fs.inodes.len() as int) by {
        assert(file_ok(files, h, before.fs.inodes.len() as int));
    }
}

} // verus!
