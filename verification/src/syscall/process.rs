//! System calls on processes, memory and time.

use vstd::prelude::*;
use crate::codec::{push_u32_le, push_u64_le, push_zeros, u32_le, u64_le, zeros};
use crate::config::{MAX_PID, ROOT_PID};
use crate::error::KernelError;
use crate::kernel::{Kernel, lemma_task_changed, procs, slot_ok};
use crate::kernel::files::{lemma_referenced_same_tables, without_files_of};
use crate::kernel::process::{free_pid, lemma_first_empty};
use crate::loader::ProgramImage;
use crate::mm::{
    cut_all, Extent, extents, map_range, mmap_outcome, munmap_outcome, port_permission,
    range_accessible, unmap_range, vpn_ceil, vpn_floor, write_bytes_result,
};
use crate::sched::pass_of;
use crate::task::{sbrk_memory, sbrk_regions, sbrk_target, TaskControlBlock, TaskStatus};
use crate::tree::live;

verus! {

/// Bytes of an encoded `TimeVal`.
pub const TIMEVAL_SIZE: usize = 16;

/// Bytes of an encoded `TaskInfo`.
pub const TASK_INFO_SIZE: usize = 2016;

/// A time: whole seconds and the microseconds beyond them.
#[derive(Debug)]
pub struct TimeVal {
    pub sec: usize,
    pub usec: usize,
}

impl TimeVal {
    /// The record as user memory holds it: `sec`, then `usec`, eight bytes
    /// each, least significant first.
    pub open spec fn encoding(&self) -> Seq<u8> {
        u64_le(self.sec as u64) + u64_le(self.usec as u64)
    }

    /// The record as user memory holds it.
    pub fn encode(&self) -> (r: Vec<u8>)
        ensures
            r@ == self.encoding(),
            r@.len() == TIMEVAL_SIZE,
    {
        let mut out: Vec<u8> = Vec::new();
        push_u64_le(&mut out, self.sec as u64);
        push_u64_le(&mut out, self.usec as u64);
        out
    }

    /// The time that a clock reading of `us` microseconds shows.
    pub fn from_micros(us: usize) -> (r: TimeVal)
        ensures
            r.sec == us / 1_000_000,
            r.usec == us % 1_000_000,
    {
        TimeVal { sec: us / 1_000_000, usec: us % 1_000_000 }
    }
}

/// What a process learns of itself.
pub struct TaskInfo {
    /// The state of the process.
    pub status: TaskStatus,
    /// How often the process made each system call.
    pub syscall_times: Vec<u32>,
    /// The milliseconds since the process first ran.
    pub time: usize,
}

/// The number that stands for a state in an encoded `TaskInfo`.
pub open spec fn status_code(status: TaskStatus) -> u8 {
    match status {
        TaskStatus::Ready => 0,
        TaskStatus::Running => 1,
        TaskStatus::Zombie => 2,
    }
}

/// The counts of `times`, four bytes each, least significant first.
pub open spec fn counts_le(times: Seq<u32>) -> Seq<u8>
    decreases times.len(),
{
    if times.len() == 0 {
        Seq::empty()
    } else {
        counts_le(times.drop_last()) + u32_le(times.last())
    }
}

/// Each count takes four bytes.
pub proof fn lemma_counts_len(times: Seq<u32>)
    ensures
        counts_le(times).len() == 4 * times.len(),
    decreases times.len(),
{
    if times.len() > 0 {
        lemma_counts_len(times.drop_last());
    }
}

/// A `TaskInfo` as user memory holds it: the state in one byte and three of
/// padding, the counts in four bytes each, four bytes of padding, and the
/// time in eight bytes; numbers least significant byte first.
pub open spec fn task_info_bytes(status: TaskStatus, times: Seq<u32>, time: usize) -> Seq<u8> {
    seq![status_code(status)] + zeros(3) + counts_le(times) + zeros(4) + u64_le(time as u64)
}

impl TaskInfo {
    /// The record as user memory holds it.
    pub open spec fn encoding(&self) -> Seq<u8> {
        task_info_bytes(self.status, self.syscall_times@, self.time)
    }

    /// The record as user memory holds it.
    pub fn encode(&self) -> (r: Vec<u8>)
        ensures
            r@ == self.encoding(),
            r@.len() == 16 + 4 * self.syscall_times.len(),
    {
        let mut out: Vec<u8> = Vec::new();
        out.push(
            match self.status {
                TaskStatus::Ready => 0u8,
                TaskStatus::Running => 1u8,
                TaskStatus::Zombie => 2u8,
            },
        );
        push_zeros(&mut out, 3);
        let ghost head = out@;
        let mut i: usize = 0;
        assert(self.syscall_times@.take(0) =~= Seq::<u32>::empty());
        assert(out@ =~= head + counts_le(self.syscall_times@.take(0)));
        while i < self.syscall_times.len()
            invariant
                i <= self.syscall_times.len(),
                out@ == head + counts_le(self.syscall_times@.take(i as int)),
            decreases self.syscall_times.len() - i,
        {
            push_u32_le(&mut out, self.syscall_times[i]);
            i = i + 1;
            proof {
                let pre = self.syscall_times@.take(i - 1);
                let cur = self.syscall_times@.take(i as int);
                assert(cur.drop_last() =~= pre);
                assert(out@ =~= head + counts_le(cur));
            }
        }
        assert(self.syscall_times@.take(i as int) =~= self.syscall_times@);
        push_zeros(&mut out, 4);
        push_u64_le(&mut out, self.time as u64);
        proof {
            lemma_counts_len(self.syscall_times@);
            assert(head =~= seq![status_code(self.status)] + zeros(3));
            assert(out@ =~= self.encoding());
        }
        out
    }
}

/// The milliseconds between the moment a process first ran and a clock
/// reading of `clock_us` microseconds; zero for a process that never ran.
pub open spec fn elapsed_ms(started: Option<usize>, clock_us: usize) -> usize {
    match started {
        Some(t) => if clock_us / 1000 >= t {
            (clock_us / 1000 - t) as usize
        } else {
            0
        },
        None => 0,
    }
}

/// The four bytes of `code` in two's complement, least significant first.
pub open spec fn i32_le(code: i32) -> Seq<u8> {
    u32_le(
        if code >= 0 {
            code as u32
        } else {
            (code + 0x1_0000_0000) as u32
        },
    )
}

/// Ends the running process with `exit_code`. The process becomes a
/// zombie until its parent collects it; the root adopts its children; the
/// scheduler chooses who runs next.
pub fn sys_exit(kernel: &mut Kernel, exit_code: i32)
    requires
        old(kernel).wf(),
        old(kernel).running(),
    ensures
        final(kernel).wf(),
        exists|mid: Kernel|
            #[trigger] mid.exited(*old(kernel), exit_code) && mid.wf() && final(kernel).scheduled(
                mid,
            ),
{
    kernel.exit_current_and_run_next(exit_code);
}

/// Gives up the processor. The running process goes to the back of the
/// ready queue with its stride grown by its pass, and the scheduler chooses
/// who runs next. The result, for the process that gave up, is 0.
pub fn sys_yield(kernel: &mut Kernel) -> (r: isize)
    requires
        old(kernel).wf(),
        old(kernel).running(),
    ensures
        r == 0,
        final(kernel).wf(),
        final(kernel).running(),
        exists|mid: Kernel|
            #[trigger] mid.suspended(*old(kernel)) && mid.wf() && final(kernel).scheduled(mid),
{
    kernel.suspend_current_and_run_next();
    0
}

/// The pid of the running process.
pub fn sys_getpid(kernel: &Kernel) -> (r: isize)
    requires
        kernel.wf(),
        kernel.running(),
    ensures
        r == kernel.current->0,
        r == kernel.cur().pid,
        0 < r <= MAX_PID,
{
    let p: usize = kernel.current.unwrap();
    proof {
        assert(live(procs(kernel.tasks@), p as int));
        assert(slot_ok(kernel.tasks@, p as int));
    }
    p as isize
}

/// Forks the running process. The result, for the parent, is the pid of
/// the child, which is positive; the child, a copy of the parent with
/// memory of its own, finds 0 in the register for results. -1, and nothing
/// changed, if no pid is left.
pub fn sys_fork(kernel: &mut Kernel) -> (r: isize)
    requires
        old(kernel).wf(),
        old(kernel).running(),
    ensures
        final(kernel).wf(),
        r == if free_pid(old(kernel).tasks@) <= MAX_PID {
            free_pid(old(kernel).tasks@)
        } else {
            -1
        },
        r == -1 ==> *final(kernel) == *old(kernel),
        r != -1 ==> {
            &&& 0 < r <= MAX_PID
            &&& final(kernel).has(r as int)
            &&& final(kernel).task(r as int).forked_from(old(kernel).cur(), r as usize)
            &&& final(kernel).task(r as int).trap_cx.x[10] == 0
            &&& final(kernel).installed(*old(kernel), final(kernel).task(r as int))
        },
{
    proof {
        lemma_first_empty(old(kernel).tasks@, 1);
    }
    match kernel.fork() {
        Some(c) => c as isize,
        None => -1,
    }
}

/// Replaces the program of the running process by the one in the file that
/// the string at `path` names. `image` is what the loader made of that
/// file's bytes, `None` if it made nothing of them. The result is 0 when the
/// new program is in place, -1, and nothing changed, if the path names no
/// file or the image is missing or cannot be loaded.
pub fn sys_exec(kernel: &mut Kernel, path: usize, image: Option<&ProgramImage>) -> (r: isize)
    requires
        old(kernel).wf(),
        old(kernel).running(),
    ensures
        final(kernel).wf(),
        r == if old(kernel).resolve_user_path(path as int) is Some && image is Some
            && image->0.valid() {
            0int
        } else {
            -1
        },
        r == -1 ==> *final(kernel) == *old(kernel),
        r == 0 ==> {
            let p = old(kernel).current->0 as int;
            &&& final(kernel).same_but_tasks(*old(kernel))
            &&& final(kernel).same_but_task(*old(kernel), p)
            &&& final(kernel).has(p)
            &&& final(kernel).task(p).starts(*image->0)
            &&& final(kernel).task(p).same_but_program(old(kernel).task(p))
        },
{
    if kernel.lookup_user_path(path).is_none() {
        return -1;
    }
    match image {
        Some(image) => {
            if kernel.exec(image) {
                0
            } else {
                -1
            }
        },
        None => -1,
    }
}

/// What `sys_waitpid` answers: -1 if the filter lets no child through; -2
/// if it does but none of those has exited; -1 as well if one has but the
/// process may not write the four bytes at `exit_code_ptr`; else the pid of
/// the first such child.
pub open spec fn waitpid_result(kernel: Kernel, pid: int, exit_code_ptr: int) -> int {
    match kernel.wait_target(pid) {
        Err(e) => e.spec_code(),
        Ok(k) => if range_accessible(kernel.cur().memory_set@, exit_code_ptr, 4, true) {
            kernel.cur().children[k] as int
        } else {
            -1
        },
    }
}

/// Collects a child that has exited: any child if `pid` is -1, else the
/// child of that pid. The child's exit code goes to the four bytes at
/// `exit_code_ptr`, the child leaves the table, the open files that only
/// its descriptor slots named are closed, and the result is its pid.
/// Nothing changes where the result is negative.
pub fn sys_waitpid(kernel: &mut Kernel, pid: isize, exit_code_ptr: usize) -> (r: isize)
    requires
        old(kernel).wf(),
        old(kernel).running(),
    ensures
        final(kernel).wf(),
        r == waitpid_result(*old(kernel), pid as int, exit_code_ptr as int),
        r < 0 ==> *final(kernel) == *old(kernel),
        r >= 0 ==> {
            let k = old(kernel).wait_target(pid as int)->Ok_0;
            let p = old(kernel).current->0 as int;
            &&& old(kernel).wait_target(pid as int) is Ok
            &&& r != ROOT_PID
            &&& old(kernel).has(r as int)
            &&& old(kernel).task(r as int).task_status == TaskStatus::Zombie
            &&& final(kernel).tasks[r as int] is None
            &&& final(kernel).tasks.len() == old(kernel).tasks.len()
            &&& *final(kernel) == (Kernel {
                tasks: final(kernel).tasks,
                files: final(kernel).files,
                ..*old(kernel)
            })
            &&& final(kernel).files@ == without_files_of(
                old(kernel).files@,
                final(kernel).tasks@,
                old(kernel).task(r as int).fd_table@,
            )
            &&& final(kernel).has(p)
            &&& final(kernel).task(p).children@ == old(kernel).task(p).children@.remove(k)
            &&& final(kernel).task(p).memory_set@ == write_bytes_result(
                old(kernel).task(p).memory_set@,
                exit_code_ptr as int,
                i32_le(old(kernel).task(r as int).exit_code),
            )
            &&& final(kernel).task(p).same_but_reaped(old(kernel).task(p))
            &&& forall|q: int|
                0 <= q < old(kernel).tasks.len() && q != p && q != r
                    ==> #[trigger] final(kernel).tasks[q] == old(kernel).tasks[q]
        },
{
    let k: usize = match kernel.find_zombie_child(pid) {
        Ok(k) => k,
        Err(e) => {
            return e.code();
        },
    };
    let p: usize = kernel.current.unwrap();
    proof {
        assert(live(procs(kernel.tasks@), p as int));
        assert(slot_ok(kernel.tasks@, p as int));
    }
    if !kernel.task_ref(p).memory_set.check_access(exit_code_ptr, 4, true) {
        return -1;
    }
    let (c, code) = kernel.reap(k);
    let bits: u32 = if code >= 0 {
        code as u32
    } else {
        (code as i64 + 0x1_0000_0000) as u32
    };
    let mut bytes: Vec<u8> = Vec::new();
    push_u32_le(&mut bytes, bits);
    let ghost reaped = *kernel;
    let ok = kernel.write_user(exit_code_ptr, &bytes);
    assert(ok);
    proof {
        let table = old(kernel).task(c as int).fd_table@;
        assert forall|h: int| 0 <= h < old(kernel).files.len() implies without_files_of(
            old(kernel).files@,
            kernel.tasks@,
            table,
        )[h] == without_files_of(old(kernel).files@, reaped.tasks@, table)[h] by {
            lemma_referenced_same_tables(reaped.tasks@, kernel.tasks@, h);
        }
        assert(without_files_of(old(kernel).files@, kernel.tasks@, table) =~= without_files_of(
            old(kernel).files@,
            reaped.tasks@,
            table,
        ));
    }
    c as isize
}

/// Writes the clock's last reading to the sixteen bytes at `ts`, as
/// seconds and microseconds. The result is 0, or -1, and nothing changed,
/// if the process may not write there.
pub fn sys_get_time(kernel: &mut Kernel, ts: usize, _tz: usize) -> (r: isize)
    requires
        old(kernel).wf(),
        old(kernel).running(),
    ensures
        final(kernel).wf(),
        r == if range_accessible(old(kernel).cur().memory_set@, ts as int, TIMEVAL_SIZE as int, true) {
            0int
        } else {
            -1
        },
        r == -1 ==> *final(kernel) == *old(kernel),
        r == 0 ==> {
            &&& final(kernel).same_but_memory(*old(kernel))
            &&& final(kernel).cur().program_brk == old(kernel).cur().program_brk
            &&& final(kernel).cur().memory_set@ == write_bytes_result(
                old(kernel).cur().memory_set@,
                ts as int,
                (TimeVal {
                    sec: (old(kernel).clock_us / 1_000_000) as usize,
                    usec: (old(kernel).clock_us % 1_000_000) as usize,
                }).encoding(),
            )
        },
{
    let bytes = TimeVal::from_micros(kernel.clock_us).encode();
    if kernel.write_user(ts, &bytes) {
        0
    } else {
        -1
    }
}

/// Writes what the running process may learn of itself to the bytes at
/// `ti`: that it is running, how often it made each system call, and the
/// milliseconds since it first ran. The result is 0, or -1, and nothing
/// changed, if the process may not write there.
pub fn sys_task_info(kernel: &mut Kernel, ti: usize) -> (r: isize)
    requires
        old(kernel).wf(),
        old(kernel).running(),
    ensures
        final(kernel).wf(),
        r == if range_accessible(
            old(kernel).cur().memory_set@,
            ti as int,
            TASK_INFO_SIZE as int,
            true,
        ) {
            0int
        } else {
            -1
        },
        r == -1 ==> *final(kernel) == *old(kernel),
        r == 0 ==> {
            &&& final(kernel).same_but_memory(*old(kernel))
            &&& final(kernel).cur().program_brk == old(kernel).cur().program_brk
            &&& final(kernel).cur().memory_set@ == write_bytes_result(
                old(kernel).cur().memory_set@,
                ti as int,
                task_info_bytes(
                    TaskStatus::Running,
                    old(kernel).cur().syscall_times@,
                    elapsed_ms(old(kernel).cur().started, old(kernel).clock_us),
                ),
            )
        },
{
    let p: usize = kernel.current.unwrap();
    proof {
        assert(live(procs(kernel.tasks@), p as int));
        assert(slot_ok(kernel.tasks@, p as int));
    }
    let task = kernel.task_ref(p);
    let now_ms: usize = kernel.clock_us / 1000;
    let time: usize = match task.started {
        Some(t) => if now_ms >= t {
            now_ms - t
        } else {
            0
        },
        None => 0,
    };
    let mut times: Vec<u32> = Vec::new();
    let mut i: usize = 0;
    while i < task.syscall_times.len()
        invariant
            i <= task.syscall_times.len(),
            times@ == task.syscall_times@.take(i as int),
        decreases task.syscall_times.len() - i,
    {
        times.push(task.syscall_times[i]);
        i = i + 1;
        assert(times@ =~= task.syscall_times@.take(i as int));
    }
    assert(task.syscall_times@.take(i as int) =~= task.syscall_times@);
    let info = TaskInfo { status: TaskStatus::Running, syscall_times: times, time };
    let bytes = info.encode();
    if kernel.write_user(ti, &bytes) {
        0
    } else {
        -1
    }
}

/// Maps `[start, start + len)`, rounded out to whole pages, into the
/// address space of the running process, zeroed, with the access that the
/// low three bits of `port` name (1 read, 2 write, 4 execute). The result is
/// 0, or -1, and nothing changed, if `start` is not page-aligned, `port`
/// names no access or has other bits, the range leaves the address space,
/// or one of its pages is mapped already.
pub fn sys_mmap(kernel: &mut Kernel, start: usize, len: usize, port: usize) -> (r: isize)
    requires
        old(kernel).wf(),
        old(kernel).running(),
    ensures
        final(kernel).wf(),
        r == if mmap_outcome(old(kernel).cur().memory_set@, start as int, len as int, port as int) is Ok {
            0int
        } else {
            -1
        },
        r == -1 ==> final(kernel).same_as(*old(kernel)),
        r == 0 ==> {
            &&& final(kernel).same_but_memory(*old(kernel))
            &&& final(kernel).cur().program_brk == old(kernel).cur().program_brk
            &&& final(kernel).cur().memory_set@ == map_range(
                old(kernel).cur().memory_set@,
                vpn_floor(start as int),
                vpn_ceil(start + len),
                port_permission(port as int),
            )
            &&& extents(final(kernel).cur().memory_set.areas@) == if len > 0 {
                extents(old(kernel).cur().memory_set.areas@).push(
                    Extent {
                        start: vpn_floor(start as int),
                        end: vpn_ceil(start + len),
                        perm: port_permission(port as int),
                    },
                )
            } else {
                extents(old(kernel).cur().memory_set.areas@)
            }
        },
{
    let p: usize = kernel.current.unwrap();
    let ghost before = *kernel;
    proof {
        assert(live(procs(kernel.tasks@), p as int));
        assert(slot_ok(kernel.tasks@, p as int));
    }
    let res = match &mut kernel.tasks[p] {
        Some(t) => t.memory_set.mmap(start, len, port),
        None => Err(KernelError::NotFound),
    };
    proof {
        lemma_task_changed(before, *kernel, p as int);
        if res is Err {
            assert(kernel.tasks@ =~= before.tasks@);
        }
    }
    match res {
        Ok(_) => 0,
        Err(e) => e.code(),
    }
}

/// Unmaps `[start, start + len)`, rounded out to whole pages, from the
/// address space of the running process. The result is 0, or -1, and
/// nothing changed, if `start` is not page-aligned, the range leaves the
/// address space, or one of its pages is not mapped.
pub fn sys_munmap(kernel: &mut Kernel, start: usize, len: usize) -> (r: isize)
    requires
        old(kernel).wf(),
        old(kernel).running(),
    ensures
        final(kernel).wf(),
        r == if munmap_outcome(old(kernel).cur().memory_set@, start as int, len as int) is Ok {
            0int
        } else {
            -1
        },
        r == -1 ==> final(kernel).same_as(*old(kernel)),
        r == 0 ==> {
            &&& final(kernel).same_but_memory(*old(kernel))
            &&& final(kernel).cur().program_brk == old(kernel).cur().program_brk
            &&& final(kernel).cur().memory_set@ == unmap_range(
                old(kernel).cur().memory_set@,
                vpn_floor(start as int),
                vpn_ceil(start + len),
            )
            &&& extents(final(kernel).cur().memory_set.areas@) == cut_all(
                extents(old(kernel).cur().memory_set.areas@),
                vpn_floor(start as int),
                vpn_ceil(start + len),
            )
        },
{
    let p: usize = kernel.current.unwrap();
    let ghost before = *kernel;
    proof {
        assert(live(procs(kernel.tasks@), p as int));
        assert(slot_ok(kernel.tasks@, p as int));
    }
    let res = match &mut kernel.tasks[p] {
        Some(t) => t.memory_set.munmap(start, len),
        None => Err(KernelError::NotFound),
    };
    proof {
        lemma_task_changed(before, *kernel, p as int);
        if res is Err {
            assert(kernel.tasks@ =~= before.tasks@);
        }
    }
    match res {
        Ok(_) => 0,
        Err(e) => e.code(),
    }
}

/// Moves the break of the heap of the running process by `size` bytes.
/// The result is the old break; -1, and nothing changed, if the old break
/// does not fit the result or the break cannot move so.
pub fn sys_sbrk(kernel: &mut Kernel, size: i32) -> (r: isize)
    requires
        old(kernel).wf(),
        old(kernel).running(),
    ensures
        final(kernel).wf(),
        r == if old(kernel).cur().program_brk <= isize::MAX && sbrk_target(
            old(kernel).cur().memory_set@,
            old(kernel).cur().heap_bottom as int,
            old(kernel).cur().program_brk as int,
            size as int,
        ) is Some {
            old(kernel).cur().program_brk as int
        } else {
            -1
        },
        r == -1 ==> final(kernel).same_as(*old(kernel)),
        r != -1 ==> {
            &&& final(kernel).same_but_memory(*old(kernel))
            &&& final(kernel).cur().program_brk == old(kernel).cur().program_brk + size
            &&& final(kernel).cur().memory_set@ == sbrk_memory(
                old(kernel).cur().memory_set@,
                old(kernel).cur().program_brk as int,
                size as int,
            )
            &&& extents(final(kernel).cur().memory_set.areas@) == sbrk_regions(
                extents(old(kernel).cur().memory_set.areas@),
                old(kernel).cur().program_brk as int,
                size as int,
            )
        },
{
    let p: usize = kernel.current.unwrap();
    let ghost before = *kernel;
    proof {
        assert(live(procs(kernel.tasks@), p as int));
        assert(slot_ok(kernel.tasks@, p as int));
    }
    if kernel.task_ref(p).program_brk > isize::MAX as usize {
        return -1;
    }
    let res = match &mut kernel.tasks[p] {
        Some(t) => t.change_program_brk(size),
        None => None,
    };
    proof {
        lemma_task_changed(before, *kernel, p as int);
        if res is None {
            assert(kernel.tasks@ =~= before.tasks@);
        }
    }
    match res {
        Some(old_brk) => old_brk as isize,
        None => -1,
    }
}

/// Starts the program in the file that the string at `path` names in a new
/// child of the running process, to the effect of a fork and a new program
/// for the child: the child's descriptor slots name the open files that
/// the caller's name, and the two share them. `image` is what the loader
/// made of that file's bytes, `None` if it made nothing of them. The result
/// is the pid of the child; -1, and nothing changed, if the path names no
/// file, the image is missing or cannot be loaded, or no pid is left.
pub fn sys_spawn(kernel: &mut Kernel, path: usize, image: Option<&ProgramImage>) -> (r: isize)
    requires
        old(kernel).wf(),
        old(kernel).running(),
    ensures
        final(kernel).wf(),
        r == if old(kernel).resolve_user_path(path as int) is Some && image is Some
            && image->0.valid() && free_pid(old(kernel).tasks@) <= MAX_PID {
            free_pid(old(kernel).tasks@)
        } else {
            -1
        },
        r == -1 ==> *final(kernel) == *old(kernel),
        r != -1 ==> {
            &&& 0 < r <= MAX_PID
            &&& final(kernel).has(r as int)
            &&& final(kernel).task(r as int).fresh_from(
                *image->0,
                r as usize,
                old(kernel).current,
                old(kernel).cur().fd_table@,
            )
            &&& final(kernel).installed(*old(kernel), final(kernel).task(r as int))
        },
{
    proof {
        lemma_first_empty(old(kernel).tasks@, 1);
    }
    if kernel.lookup_user_path(path).is_none() {
        return -1;
    }
    match image {
        Some(image) => match kernel.spawn(image) {
            Some(c) => c as isize,
            None => -1,
        },
        None => -1,
    }
}

/// Sets the priority of the running process to `prio`, and its pass to
/// match. The result is `prio`; -1, and nothing changed, if `prio` is less than 2.
pub fn sys_set_priority(kernel: &mut Kernel, prio: isize) -> (r: isize)
    requires
        old(kernel).wf(),
        old(kernel).running(),
    ensures
        final(kernel).wf(),
        r == if prio >= 2 {
            prio as int
        } else {
            -1
        },
        r == -1 ==> *final(kernel) == *old(kernel),
        r != -1 ==> {
            let p = old(kernel).current->0 as int;
            &&& final(kernel).same_but_tasks(*old(kernel))
            &&& final(kernel).same_but_task(*old(kernel), p)
            &&& final(kernel).has(p)
            &&& final(kernel).task(p) == (TaskControlBlock {
                priority: prio,
                pass: pass_of(prio),
                ..old(kernel).task(p)
            })
        },
{
    if prio < 2 {
        return -1;
    }
    let p: usize = kernel.current.unwrap();
    let ghost before = *kernel;
    proof {
        assert(live(procs(kernel.tasks@), p as int));
        assert(slot_ok(kernel.tasks@, p as int));
    }
    match &mut kernel.tasks[p] {
        Some(t) => {
            let _ = t.set_priority(prio);
        },
        None => {},
    }
    proof {
        lemma_task_changed(before, *kernel, p as int);
    }
    prio
}

} // verus!
