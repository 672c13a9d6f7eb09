//! Process control blocks.

use vstd::prelude::*;
use crate::config::{
    DEFAULT_PRIORITY, KERNEL_STACK_SIZE, MAX_PID, MAX_SYSCALL_NUM, PAGE_SIZE, TRAMPOLINE,
};
use crate::error::KernelError;
use crate::fs::{CONSOLE_IN, CONSOLE_OUT};
use crate::loader::{LoadedImage, ProgramImage};
use crate::mm::{
    cut_all, Extent, extents, lemma_same_shape_extents, map_range, MapPermission, MemorySet,
    page_ceil, PageMap, range_mapped, range_unmapped, unmap_range, vpn_ceil,
};
use crate::sched::pass_of;

verus! {

/// Where a process is in its life.
#[derive(Clone, Copy, Debug, PartialEq, Eq, Structural)]
pub enum TaskStatus {
    /// Waiting for a turn.
    Ready,
    /// Having its turn.
    Running,
    /// Exited and not yet collected by its parent.
    Zombie,
}

/// The registers of a process while the kernel runs.
#[derive(Clone, Copy, Debug)]
pub struct TrapContext {
    /// The general registers; `x[2]` is the stack pointer, `x[10]` holds the
    /// result of a call when the process goes on.
    pub x: [usize; 32],
    /// Where the process goes on.
    pub sepc: usize,
    /// The top of the process's kernel stack.
    pub kernel_sp: usize,
}

impl TrapContext {
    /// The registers of a program before its first instruction.
    pub fn app_init_context(entry: usize, sp: usize, kernel_sp: usize) -> (cx: TrapContext)
        ensures
            cx.sepc == entry,
            cx.kernel_sp == kernel_sp,
            cx.x[2] == sp,
            forall|i: int| 0 <= i < 32 && i != 2 ==> cx.x[i] == 0,
    {
        let mut x: [usize; 32] = [0usize; 32];
        x[2] = sp;
        TrapContext { x, sepc: entry, kernel_sp }
    }
}

/// The top of the kernel stack of process `pid`.
pub open spec fn spec_kernel_stack_top(pid: usize) -> usize {
    (TRAMPOLINE - pid * (KERNEL_STACK_SIZE + PAGE_SIZE)) as usize
}

/// The top of the kernel stack of process `pid`: the stacks lie below the
/// trampoline page, one unmapped page between neighbours.
#[verifier::when_used_as_spec(spec_kernel_stack_top)]
pub fn kernel_stack_top(pid: usize) -> (r: usize)
    requires
        pid <= MAX_PID,
    ensures
        r == spec_kernel_stack_top(pid),
{
    let step: usize = KERNEL_STACK_SIZE + PAGE_SIZE;
    assert(pid * step <= 0xFFFF * 12288) by (nonlinear_arith)
        requires
            pid <= 0xFFFF,
            step == 12288,
    ;
    TRAMPOLINE - pid * step
}

/// The first empty slot of `table` at or after `from`, or the length of `table`.
pub open spec fn first_free(table: Seq<Option<usize>>, from: int) -> int
    decreases table.len() - from,
{
    if from < 0 || from >= table.len() {
        table.len() as int
    } else if table[from] is None {
        from
    } else {
        first_free(table, from + 1)
    }
}

/// Where the break of a heap that starts at `heap_bottom` and ends at `brk`
/// goes when it is moved by `size`, if it can: growing must not leave the
/// address space nor run into mapped pages; shrinking must not pass the
/// start of the heap, and every page it gives up must be mapped.
pub open spec fn sbrk_target(m: PageMap, heap_bottom: int, brk: int, size: int) -> Option<int> {
    if size >= 0 {
        if brk + size <= usize::MAX && range_unmapped(m, vpn_ceil(brk), vpn_ceil(brk + size)) {
            Some(brk + size)
        } else {
            None
        }
    } else {
        if brk + size >= heap_bottom && range_mapped(m, vpn_ceil(brk + size), vpn_ceil(brk)) {
            Some(brk + size)
        } else {
            None
        }
    }
}

/// The address space after the break moved from `brk` by `size`.
pub open spec fn sbrk_memory(m: PageMap, brk: int, size: int) -> PageMap {
    if size >= 0 {
        map_range(
            m,
            vpn_ceil(brk),
            vpn_ceil(brk + size),
            MapPermission { r: true, w: true, x: false, u: true },
        )
    } else {
        unmap_range(m, vpn_ceil(brk + size), vpn_ceil(brk))
    }
}

/// The regions of an address space with regions `xs` after the break moved
/// from `brk` by `size`: one more region for the pages that the heap newly
/// reaches, if there are any; or the regions without those that it left.
pub open spec fn sbrk_regions(xs: Seq<Extent>, brk: int, size: int) -> Seq<Extent> {
    if size >= 0 {
        if vpn_ceil(brk) < vpn_ceil(brk + size) {
            xs.push(
                Extent {
                    start: vpn_ceil(brk),
                    end: vpn_ceil(brk + size),
                    perm: MapPermission { r: true, w: true, x: false, u: true },
                },
            )
        } else {
            xs
        }
    } else {
        cut_all(xs, vpn_ceil(brk + size), vpn_ceil(brk))
    }
}

/// The record that the kernel keeps of one process.
pub struct TaskControlBlock {
    pub pid: usize,
    pub kernel_stack_top: usize,
    pub trap_cx: TrapContext,
    pub task_status: TaskStatus,
    pub memory_set: MemorySet,
    /// The pid of the parent; the process does not keep its parent alive.
    pub parent: Option<usize>,
    /// The pids of the children, oldest first.
    pub children: Vec<usize>,
    /// What the process handed to `exit`; it means something once the process is a zombie.
    pub exit_code: i32,
    /// The stack pointer that the program started with.
    pub base_size: usize,
    pub heap_bottom: usize,
    pub program_brk: usize,
    /// The clock, in milliseconds, when the process first ran.
    pub started: Option<usize>,
    /// How often the process made each system call.
    pub syscall_times: Vec<u32>,
    pub stride: u64,
    pub pass: u64,
    pub priority: isize,
    /// The descriptor slots: each names an open file of the kernel, or is empty.
    pub fd_table: Vec<Option<usize>>,
}

impl TaskControlBlock {
    /// The control block is sound: its pid is in range and its kernel stack
    /// the one of that pid, its address space is sound, every system call
    /// has a count, the priority is at least 2 and the pass matches it, and
    /// the break does not lie below the heap.
    pub open spec fn wf(&self) -> bool {
        &&& self.pid <= MAX_PID
        &&& self.kernel_stack_top == kernel_stack_top(self.pid)
        &&& self.memory_set.wf()
        &&& self.syscall_times.len() == MAX_SYSCALL_NUM
        &&& self.priority >= 2
        &&& self.pass == pass_of(self.priority)
        &&& self.heap_bottom <= self.program_brk
    }

    /// The files that the first process starts with: the console's input in
    /// slot 0, its output in slots 1 and 2.
    pub open spec fn std_files() -> Seq<Option<usize>> {
        seq![Some(CONSOLE_IN), Some(CONSOLE_OUT), Some(CONSOLE_OUT)]
    }

    /// The descriptor table that the first process starts with.
    pub fn std_fd_table() -> (table: Vec<Option<usize>>)
        ensures
            table@ == Self::std_files(),
    {
        let mut table: Vec<Option<usize>> = Vec::new();
        table.push(Some(CONSOLE_IN));
        table.push(Some(CONSOLE_OUT));
        table.push(Some(CONSOLE_OUT));
        assert(table@ =~= Self::std_files());
        table
    }

    /// A descriptor table whose slots name the open files that the slots of
    /// this process name: tables of a parent and its child share them.
    pub fn share_fd_table(&self) -> (table: Vec<Option<usize>>)
        ensures
            table@ == self.fd_table@,
    {
        let mut table: Vec<Option<usize>> = Vec::new();
        let mut i: usize = 0;
        while i < self.fd_table.len()
            invariant
                i <= self.fd_table.len(),
                table@ == self.fd_table@.take(i as int),
            decreases self.fd_table.len() - i,
        {
            table.push(self.fd_table[i]);
            i = i + 1;
            assert(table@ =~= self.fd_table@.take(i as int));
        }
        assert(self.fd_table@.take(i as int) =~= self.fd_table@);
        table
    }

    /// The control block of a process that is about to run the program of
    /// `image` for the first time, with the descriptor table `fd_table`:
    /// ready, without children, with the default priority, a stride of zero
    /// and nothing counted.
    pub fn new(
        pid: usize,
        parent: Option<usize>,
        image: LoadedImage,
        fd_table: Vec<Option<usize>>,
    ) -> (t: TaskControlBlock)
        requires
            pid <= MAX_PID,
            image.memory_set.wf(),
        ensures
            t.wf(),
            t.pid == pid,
            t.parent == parent,
            t.children@.len() == 0,
            t.task_status == TaskStatus::Ready,
            t.exit_code == 0,
            t.started is None,
            t.syscall_times@ == Seq::new(MAX_SYSCALL_NUM as nat, |i: int| 0u32),
            t.stride == 0,
            t.priority == DEFAULT_PRIORITY,
            t.fd_table == fd_table,
            t.runs_image(image),
    {
        let mut syscall_times: Vec<u32> = Vec::new();
        while syscall_times.len() < MAX_SYSCALL_NUM
            invariant
                syscall_times.len() <= MAX_SYSCALL_NUM,
                syscall_times@ == Seq::new(syscall_times.len() as nat, |i: int| 0u32),
            decreases MAX_SYSCALL_NUM - syscall_times.len(),
        {
            syscall_times.push(0u32);
            assert(syscall_times@ =~= Seq::new(syscall_times.len() as nat, |i: int| 0u32));
        }
        let kernel_sp: usize = kernel_stack_top(pid);
        let priority: isize = DEFAULT_PRIORITY;
        let mut t = TaskControlBlock {
            pid,
            kernel_stack_top: kernel_sp,
            trap_cx: TrapContext::app_init_context(0, 0, kernel_sp),
            task_status: TaskStatus::Ready,
            memory_set: MemorySet::new_bare(),
            parent,
            children: Vec::new(),
            exit_code: 0,
            base_size: 0,
            heap_bottom: 0,
            program_brk: 0,
            started: None,
            syscall_times,
            stride: 0,
            pass: pass_of(priority),
            priority,
            fd_table,
        };
        t.exec(image);
        t
    }

    /// `self` is the control block of a new process of pid `pid` and parent
    /// `parent` that is about to run the program of `image`: ready, without
    /// children, with the default priority, a stride of zero and nothing
    /// counted. Its descriptor slots are those of `table`: for a process
    /// that another one started, they name the open files that the slots of
    /// that one name, as they do after a fork.
    pub open spec fn fresh_from(
        &self,
        image: ProgramImage,
        pid: usize,
        parent: Option<usize>,
        table: Seq<Option<usize>>,
    ) -> bool {
        &&& self.pid == pid
        &&& self.kernel_stack_top == kernel_stack_top(pid)
        &&& self.parent == parent
        &&& self.children@.len() == 0
        &&& self.task_status == TaskStatus::Ready
        &&& self.exit_code == 0
        &&& self.started is None
        &&& self.syscall_times@ == Seq::new(MAX_SYSCALL_NUM as nat, |i: int| 0u32)
        &&& self.stride == 0
        &&& self.priority == DEFAULT_PRIORITY
        &&& self.fd_table@ == table
        &&& self.starts(image)
    }

    /// The process is about to run the program of `image` for the first
    /// time: its address space is the image's, its registers are zero but
    /// for the stack pointer, it goes on at the entry point, and its heap is
    /// empty and starts at the top of the user stack.
    pub open spec fn starts(&self, image: ProgramImage) -> bool {
        &&& self.memory_set@ == image.memory()
        &&& extents(self.memory_set.areas@) == image.regions()
        &&& self.trap_cx.sepc == image.entry
        &&& self.trap_cx.kernel_sp == self.kernel_stack_top
        &&& self.trap_cx.x[2] == image.stack_top()
        &&& forall|i: int| 0 <= i < 32 && i != 2 ==> self.trap_cx.x[i] == 0
        &&& self.base_size == image.stack_top()
        &&& self.heap_bottom == image.stack_top()
        &&& self.program_brk == image.stack_top()
    }

    /// The process is about to run the program of `image` for the first time:
    /// its address space is the image's, its registers are zero but for the
    /// stack pointer, it goes on at the entry point, and its heap is empty
    /// and starts at the top of the user stack.
    pub open spec fn runs_image(&self, image: LoadedImage) -> bool {
        &&& self.memory_set == image.memory_set
        &&& self.trap_cx.sepc == image.entry
        &&& self.trap_cx.kernel_sp == self.kernel_stack_top
        &&& self.trap_cx.x[2] == image.user_sp
        &&& forall|i: int| 0 <= i < 32 && i != 2 ==> self.trap_cx.x[i] == 0
        &&& self.base_size == image.user_sp
        &&& self.heap_bottom == image.user_sp
        &&& self.program_brk == image.user_sp
    }

    /// Puts the program of `image` into the control block, in place of the
    /// one it held: the address space, the registers, the stack and the heap
    /// are those of a program before its first instruction. The process
    /// keeps its pid, its parent and children, its files, its state and what
    /// was counted for it. Every program gets into its control block here,
    /// that of a new process as well as one that replaces another.
    pub fn exec(&mut self, image: LoadedImage)
        requires
            old(self).wf(),
            image.memory_set.wf(),
        ensures
            final(self).wf(),
            final(self).runs_image(image),
            final(self).same_but_program(*old(self)),
    {
        self.trap_cx = TrapContext::app_init_context(
            image.entry,
            image.user_sp,
            self.kernel_stack_top,
        );
        self.base_size = image.user_sp;
        self.heap_bottom = image.user_sp;
        self.program_brk = image.user_sp;
        self.memory_set = image.memory_set;
    }

    /// `self` is what a fork of `parent` under pid `pid` starts as: a ready
    /// process without children whose memory, break and registers are the
    /// parent's, but for register `x[10]`, which is zero, and for the kernel
    /// stack, which is its own. Its descriptor slots name the open files
    /// that the parent's slots name: the two share them. It starts with the
    /// default priority, a stride of zero and nothing counted.
    pub open spec fn forked_from(&self, parent: TaskControlBlock, pid: usize) -> bool {
        &&& self.pid == pid
        &&& self.kernel_stack_top == kernel_stack_top(pid)
        &&& self.trap_cx.sepc == parent.trap_cx.sepc
        &&& self.trap_cx.kernel_sp == kernel_stack_top(pid)
        &&& self.trap_cx.x[10] == 0
        &&& forall|i: int| 0 <= i < 32 && i != 10 ==> self.trap_cx.x[i] == parent.trap_cx.x[i]
        &&& self.task_status == TaskStatus::Ready
        &&& self.memory_set@ == parent.memory_set@
        &&& extents(self.memory_set.areas@) == extents(parent.memory_set.areas@)
        &&& self.parent == Some(parent.pid)
        &&& self.children@.len() == 0
        &&& self.exit_code == 0
        &&& self.base_size == parent.base_size
        &&& self.heap_bottom == parent.heap_bottom
        &&& self.program_brk == parent.program_brk
        &&& self.started is None
        &&& self.syscall_times@ == Seq::new(MAX_SYSCALL_NUM as nat, |i: int| 0u32)
        &&& self.stride == 0
        &&& self.priority == DEFAULT_PRIORITY
        &&& self.fd_table@ == parent.fd_table@
    }

    /// A fork of the process under pid `pid`.
    pub fn fork(&self, pid: usize) -> (t: TaskControlBlock)
        requires
            self.wf(),
            pid <= MAX_PID,
        ensures
            t.wf(),
            t.forked_from(*self, pid),
    {
        let mut syscall_times: Vec<u32> = Vec::new();
        while syscall_times.len() < MAX_SYSCALL_NUM
            invariant
                syscall_times.len() <= MAX_SYSCALL_NUM,
                syscall_times@ == Seq::new(syscall_times.len() as nat, |i: int| 0u32),
            decreases MAX_SYSCALL_NUM - syscall_times.len(),
        {
            syscall_times.push(0u32);
            assert(syscall_times@ =~= Seq::new(syscall_times.len() as nat, |i: int| 0u32));
        }
        let fd_table = self.share_fd_table();
        let kernel_sp: usize = kernel_stack_top(pid);
        let mut trap_cx = self.trap_cx;
        trap_cx.kernel_sp = kernel_sp;
        trap_cx.x[10] = 0;
        let priority: isize = DEFAULT_PRIORITY;
        let memory_set = self.memory_set.duplicate();
        proof {
            lemma_same_shape_extents(self.memory_set.areas@, memory_set.areas@);
        }
        TaskControlBlock {
            pid,
            kernel_stack_top: kernel_sp,
            trap_cx,
            task_status: TaskStatus::Ready,
            memory_set,
            parent: Some(self.pid),
            children: Vec::new(),
            exit_code: 0,
            base_size: self.base_size,
            heap_bottom: self.heap_bottom,
            program_brk: self.program_brk,
            started: None,
            syscall_times,
            stride: 0,
            pass: pass_of(priority),
            priority,
            fd_table,
        }
    }

    /// The lowest empty descriptor slot; the length of the table if none is empty.
    pub fn lowest_free_fd(&self) -> (fd: usize)
        ensures
            fd == first_free(self.fd_table@, 0),
            fd <= self.fd_table.len(),
            fd < self.fd_table.len() ==> self.fd_table[fd as int] is None,
    {
        let mut i: usize = 0;
        while i < self.fd_table.len()
            invariant
                i <= self.fd_table.len(),
                first_free(self.fd_table@, 0) == first_free(self.fd_table@, i as int),
            decreases self.fd_table.len() - i,
        {
            if self.fd_table[i].is_none() {
                return i;
            }
            i = i + 1;
        }
        i
    }

    /// The lowest empty descriptor slot; the table grows by one empty slot if it has none.
    pub fn alloc_fd(&mut self) -> (fd: usize)
        ensures
            fd == first_free(old(self).fd_table@, 0),
            fd < final(self).fd_table.len(),
            final(self).fd_table[fd as int] is None,
            final(self).fd_table@ == if fd < old(self).fd_table.len() {
                old(self).fd_table@
            } else {
                old(self).fd_table@.push(None)
            },
            final(self).same_but_files(*old(self)),
    {
        let fd: usize = self.lowest_free_fd();
        if fd == self.fd_table.len() {
            self.fd_table.push(None);
        }
        fd
    }

    /// Empties descriptor slot `fd`. The other slots keep their numbers.
    pub fn close_fd(&mut self, fd: usize) -> (r: Result<(), KernelError>)
        ensures
            r == close_outcome(old(self).fd_table@, fd as int),
            r is Ok ==> final(self).fd_table@ == old(self).fd_table@.update(fd as int, None),
            r is Err ==> *final(self) == *old(self),
            final(self).same_but_files(*old(self)),
    {
        if fd >= self.fd_table.len() {
            return Err(KernelError::NotFound);
        }
        if self.fd_table[fd].is_none() {
            return Err(KernelError::NotFound);
        }
        self.fd_table[fd] = None;
        Ok(())
    }

    /// Everything but the descriptor table is as in `other`.
    pub open spec fn same_but_files(&self, other: TaskControlBlock) -> bool {
        *self == (TaskControlBlock {
            fd_table: self.fd_table,
            ..other
        })
    }

    /// Everything but the address space and the break is as in `other`.
    pub open spec fn same_but_memory(&self, other: TaskControlBlock) -> bool {
        *self == (TaskControlBlock {
            memory_set: self.memory_set,
            program_brk: self.program_brk,
            ..other
        })
    }

    /// Sets the priority to `prio` and the pass to match, if `prio` is at least 2.
    pub fn set_priority(&mut self, prio: isize) -> (r: Result<(), KernelError>)
        requires
            old(self).wf(),
        ensures
            final(self).wf(),
            r is Ok <==> prio >= 2,
            r is Err ==> r == Err::<(), KernelError>(KernelError::InvalidArgument) && *final(self)
                == *old(self),
            r is Ok ==> final(self).priority == prio && final(self).pass == pass_of(prio)
                && final(self).stride == old(self).stride && final(self).same_but_sched(
                *old(self),
            ),
    {
        if prio < 2 {
            return Err(KernelError::InvalidArgument);
        }
        self.priority = prio;
        self.pass = pass_of(prio);
        Ok(())
    }

    /// Everything but the list of children is as in `other`.
    pub open spec fn same_but_children(&self, other: TaskControlBlock) -> bool {
        *self == (TaskControlBlock {
            children: self.children,
            ..other
        })
    }

    /// Everything that a new program does not replace is as in `other`.
    pub open spec fn same_but_program(&self, other: TaskControlBlock) -> bool {
        *self == (TaskControlBlock {
            trap_cx: self.trap_cx,
            memory_set: self.memory_set,
            base_size: self.base_size,
            heap_bottom: self.heap_bottom,
            program_brk: self.program_brk,
            ..other
        })
    }

    /// Everything but the state, the exit code and the list of children is as in `other`.
    pub open spec fn same_but_exit(&self, other: TaskControlBlock) -> bool {
        *self == (TaskControlBlock {
            task_status: self.task_status,
            children: self.children,
            exit_code: self.exit_code,
            ..other
        })
    }

    /// Everything but the address space and the list of children is as in `other`.
    pub open spec fn same_but_reaped(&self, other: TaskControlBlock) -> bool {
        *self == (TaskControlBlock {
            memory_set: self.memory_set,
            children: self.children,
            ..other
        })
    }

    /// Everything but priority, pass and stride is as in `other`.
    pub open spec fn same_but_sched(&self, other: TaskControlBlock) -> bool {
        *self == (TaskControlBlock {
            stride: self.stride,
            pass: self.pass,
            priority: self.priority,
            ..other
        })
    }

    /// Moves the break of the heap by `size` bytes and returns the old break.
    /// The pages that the heap newly reaches are mapped, zeroed, for the user
    /// to read and write; the pages that it leaves are unmapped. Nothing
    /// changes if the break cannot move so.
    pub fn change_program_brk(&mut self, size: i32) -> (r: Option<usize>)
        requires
            old(self).wf(),
        ensures
            final(self).wf(),
            final(self).same_but_memory(*old(self)),
            r is Some <==> sbrk_target(
                old(self).memory_set@,
                old(self).heap_bottom as int,
                old(self).program_brk as int,
                size as int,
            ) is Some,
            r is Some ==> {
                &&& r == Some(old(self).program_brk)
                &&& final(self).program_brk == old(self).program_brk + size
                &&& final(self).memory_set@ == sbrk_memory(
                    old(self).memory_set@,
                    old(self).program_brk as int,
                    size as int,
                )
                &&& extents(final(self).memory_set.areas@) == sbrk_regions(
                    extents(old(self).memory_set.areas@),
                    old(self).program_brk as int,
                    size as int,
                )
            },
            r is None ==> *final(self) == *old(self),
    {
        let old_brk: usize = self.program_brk;
        if size >= 0 {
            let d: usize = size as usize;
            if d > usize::MAX - old_brk {
                return None;
            }
            let new_brk: usize = old_brk + d;
            let s: usize = page_ceil(old_brk);
            let e: usize = page_ceil(new_brk);
            if !self.memory_set.range_free(s, e) {
                return None;
            }
            if s < e {
                self.memory_set.insert_framed_area(
                    s,
                    e,
                    MapPermission { r: true, w: true, x: false, u: true },
                );
            } else {
                assert(self.memory_set@ =~= sbrk_memory(
                    self.memory_set@,
                    old_brk as int,
                    size as int,
                ));
                if d == 0 {
                    return Some(old_brk);
                }
            }
            self.program_brk = new_brk;
            Some(old_brk)
        } else {
            let d: usize = (-(size as i64)) as usize;
            if d > old_brk - self.heap_bottom {
                return None;
            }
            let new_brk: usize = old_brk - d;
            let s: usize = page_ceil(new_brk);
            let e: usize = page_ceil(old_brk);
            if !self.memory_set.range_all_mapped(s, e) {
                return None;
            }
            self.memory_set.remove_range(s, e);
            self.program_brk = new_brk;
            Some(old_brk)
        }
    }

    /// Counts one more call of system call `id`; a count stays at its largest value.
    pub fn count_syscall(&mut self, id: usize)
        requires
            old(self).wf(),
        ensures
            final(self).wf(),
            final(self).syscall_times@ == counted(old(self).syscall_times@, id as int),
            final(self).same_but_counts(*old(self)),
    {
        if id < self.syscall_times.len() {
            let n: u32 = self.syscall_times[id];
            if n < u32::MAX {
                self.syscall_times[id] = n + 1;
            }
        }
        assert(self.syscall_times@ =~= counted(old(self).syscall_times@, id as int));
    }

    /// Everything but the call counts is as in `other`.
    pub open spec fn same_but_counts(&self, other: TaskControlBlock) -> bool {
        *self == (TaskControlBlock {
            syscall_times: self.syscall_times,
            ..other
        })
    }
}

/// The call counts `times` after one more call of system call `id`.
pub open spec fn counted(times: Seq<u32>, id: int) -> Seq<u32> {
    if 0 <= id < times.len() && times[id] < u32::MAX {
        times.update(id, (times[id] + 1) as u32)
    } else {
        times
    }
}

/// What closing slot `fd` of `table` answers.
pub open spec fn close_outcome(table: Seq<Option<usize>>, fd: int) -> Result<(), KernelError> {
    if 0 <= fd < table.len() && table[fd] is Some {
        Ok(())
    } else {
        Err(KernelError::NotFound)
    }
}

} // verus!
