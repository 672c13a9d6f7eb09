use kernel_core::config::{DEFAULT_PRIORITY, MAX_PID, MAX_SYSCALL_NUM, PAGE_SIZE};
use kernel_core::error::KernelError;
use kernel_core::kernel::Kernel;
use kernel_core::loader::{ProgramImage, Segment};
use kernel_core::mm::MapPermission;
use kernel_core::sched::pass_of;
use kernel_core::syscall::process::{
    sys_exec, sys_exit, sys_fork, sys_getpid, sys_mmap, sys_spawn, sys_waitpid, sys_yield,
};
use kernel_core::task::{kernel_stack_top, TaskControlBlock, TaskStatus};

fn proc_image(tag: u8) -> ProgramImage {
    ProgramImage {
        entry: 0x10000 + tag as usize,
        segments: vec![
            Segment {
                start_va: 0x10000,
                mem_size: 0x1000,
                perm: MapPermission { r: true, w: false, x: true, u: false },
                data: vec![tag; 8],
            },
            Segment {
                start_va: 0x20000,
                mem_size: 0x2000,
                perm: MapPermission { r: true, w: true, x: false, u: false },
                data: b"prog\0other\0".to_vec(),
            },
        ],
    }
}

fn proc_boot() -> Kernel {
    let mut k = Kernel::new(&proc_image(1)).unwrap();
    k.fs.create(&b"prog".to_vec());
    k
}

fn task(kernel: &Kernel, pid: usize) -> &TaskControlBlock {
    kernel.tasks[pid].as_ref().unwrap()
}

fn exit_code_at(kernel: &Kernel, va: usize) -> i32 {
    let bytes = kernel.read_user(va, 4).unwrap();
    i32::from_le_bytes([bytes[0], bytes[1], bytes[2], bytes[3]])
}

#[test]
fn boot_runs_the_root_process() {
    let k = proc_boot();
    assert_eq!(sys_getpid(&k), 1);
    assert_eq!(k.current, Some(1));
    assert!(k.ready.is_empty());
    assert_eq!(k.tasks.len(), 2);
    assert!(k.tasks[0].is_none());
    assert_eq!(k.find_free_pid(), 2);
    let root = task(&k, 1);
    assert_eq!(root.task_status, TaskStatus::Running);
    assert_eq!(root.parent, None);
    assert_eq!(root.trap_cx.sepc, 0x10001);
    assert_eq!(root.trap_cx.x[2], 0x25000);
    assert_eq!(root.base_size, 0x25000);
    assert_eq!(root.heap_bottom, 0x25000);
    assert_eq!(root.program_brk, 0x25000);
    assert_eq!(root.priority, DEFAULT_PRIORITY);
    assert_eq!(root.pass, u64::MAX / 16);
    assert_eq!(root.stride, 0);
    assert_eq!(root.started, Some(0));
    assert_eq!(root.fd_table.len(), 3);
    assert_eq!(root.syscall_times, vec![0u32; MAX_SYSCALL_NUM]);
    assert_eq!(root.kernel_stack_top, usize::MAX - PAGE_SIZE + 1 - 3 * PAGE_SIZE);
    assert_eq!(kernel_stack_top(2), usize::MAX - PAGE_SIZE + 1 - 2 * 3 * PAGE_SIZE);
}

#[test]
fn fork_returns_a_positive_pid_to_the_parent_and_zero_to_the_child() {
    let mut k = proc_boot();
    k.tasks[1].as_mut().unwrap().trap_cx.x[10] = 77;
    k.tasks[1].as_mut().unwrap().trap_cx.x[11] = 5;
    k.tasks[1].as_mut().unwrap().trap_cx.sepc = 0x10abc;
    let pid = sys_fork(&mut k);
    assert_eq!(pid, 2);
    assert_eq!(sys_getpid(&k), 1);
    let child = task(&k, 2);
    assert_eq!(child.pid, 2);
    assert_eq!(child.trap_cx.x[10], 0);
    assert_eq!(child.trap_cx.x[11], 5);
    assert_eq!(child.trap_cx.x[2], 0x25000);
    assert_eq!(child.trap_cx.sepc, 0x10abc);
    assert_eq!(child.trap_cx.kernel_sp, kernel_stack_top(2));
    assert_eq!(child.parent, Some(1));
    assert_eq!(child.task_status, TaskStatus::Ready);
    assert_eq!(child.priority, DEFAULT_PRIORITY);
    assert_eq!(child.pass, pass_of(DEFAULT_PRIORITY));
    assert_eq!(child.stride, 0);
    assert_eq!(child.started, None);
    assert_eq!(child.fd_table, task(&k, 1).fd_table);
    assert_eq!(task(&k, 1).trap_cx.x[10], 77);
    assert_eq!(task(&k, 1).children, vec![2]);
    assert_eq!(k.ready, vec![2]);
    assert_eq!(sys_yield(&mut k), 0);
    assert_eq!(sys_getpid(&k), 2);
}

#[test]
fn fork_does_not_inherit_the_priority() {
    let mut k = proc_boot();
    assert_eq!(kernel_core::syscall::process::sys_set_priority(&mut k, 40), 40);
    assert_eq!(sys_fork(&mut k), 2);
    assert_eq!(task(&k, 1).priority, 40);
    assert_eq!(task(&k, 2).priority, 16);
    assert_eq!(task(&k, 2).pass, u64::MAX / 16);
}

#[test]
fn parent_and_child_write_to_memory_of_their_own() {
    let mut k = proc_boot();
    assert!(k.write_user(0x20100, &vec![1, 2, 3]));
    assert_eq!(sys_fork(&mut k), 2);
    assert_eq!(task(&k, 2).memory_set.read_bytes(0x20100, 3), Some(vec![1, 2, 3]));
    assert!(k.write_user(0x20100, &vec![7, 7, 7]));
    assert_eq!(task(&k, 1).memory_set.read_bytes(0x20100, 3), Some(vec![7, 7, 7]));
    assert_eq!(task(&k, 2).memory_set.read_bytes(0x20100, 3), Some(vec![1, 2, 3]));
    sys_yield(&mut k);
    assert_eq!(sys_getpid(&k), 2);
    assert_eq!(k.read_user(0x20100, 3), Some(vec![1, 2, 3]));
    assert!(k.write_user(0x20101, &vec![9]));
    assert_eq!(sys_mmap(&mut k, 0x100000, PAGE_SIZE, 3), 0);
    assert_eq!(task(&k, 2).memory_set.read_bytes(0x20100, 3), Some(vec![1, 9, 3]));
    assert_eq!(task(&k, 1).memory_set.read_bytes(0x20100, 3), Some(vec![7, 7, 7]));
    assert_eq!(task(&k, 1).memory_set.translate(0x100000), None);
}

#[test]
fn wait_tells_no_child_from_no_zombie_and_collects_the_exit_code() {
    let mut k = proc_boot();
    assert_eq!(sys_waitpid(&mut k, -1, 0x20200), -1);
    assert_eq!(k.find_zombie_child(-1), Err(KernelError::NotFound));
    assert_eq!(sys_fork(&mut k), 2);
    assert_eq!(sys_waitpid(&mut k, -1, 0x20200), -2);
    assert_eq!(sys_waitpid(&mut k, 2, 0x20200), -2);
    assert_eq!(sys_waitpid(&mut k, 3, 0x20200), -1);
    assert_eq!(sys_waitpid(&mut k, -7, 0x20200), -1);
    assert_eq!(k.find_zombie_child(2), Err(KernelError::NotReady));
    sys_yield(&mut k);
    assert_eq!(sys_getpid(&k), 2);
    sys_exit(&mut k, 7);
    assert_eq!(sys_getpid(&k), 1);
    assert_eq!(task(&k, 2).task_status, TaskStatus::Zombie);
    assert_eq!(task(&k, 2).exit_code, 7);
    assert_eq!(k.find_zombie_child(2), Ok(0));
    assert_eq!(sys_waitpid(&mut k, 2, 0x20200), 2);
    assert_eq!(exit_code_at(&k, 0x20200), 7);
    assert!(k.tasks[2].is_none());
    assert!(task(&k, 1).children.is_empty());
    assert_eq!(sys_waitpid(&mut k, 2, 0x20200), -1);
    assert_eq!(sys_waitpid(&mut k, -1, 0x20200), -1);
}

#[test]
fn wait_for_any_child_takes_the_first_zombie_in_the_list() {
    let mut k = proc_boot();
    assert_eq!(sys_fork(&mut k), 2);
    assert_eq!(sys_fork(&mut k), 3);
    assert_eq!(sys_fork(&mut k), 4);
    sys_yield(&mut k);
    assert_eq!(sys_getpid(&k), 2);
    sys_yield(&mut k);
    assert_eq!(sys_getpid(&k), 3);
    sys_exit(&mut k, -3);
    assert_eq!(sys_getpid(&k), 4);
    sys_exit(&mut k, 30);
    assert_eq!(sys_getpid(&k), 1);
    assert_eq!(sys_waitpid(&mut k, 2, 0x20200), -2);
    assert_eq!(sys_waitpid(&mut k, 4, 0x20200), 4);
    assert_eq!(exit_code_at(&k, 0x20200), 30);
    assert_eq!(sys_waitpid(&mut k, -1, 0x20204), 3);
    assert_eq!(k.read_user(0x20204, 4), Some(vec![0xfd, 0xff, 0xff, 0xff]));
    assert_eq!(exit_code_at(&k, 0x20204), -3);
    assert_eq!(task(&k, 1).children, vec![2]);
    assert_eq!(sys_waitpid(&mut k, -1, 0x20200), -2);
}

#[test]
fn wait_with_a_bad_pointer_leaves_the_zombie_in_place() {
    let mut k = proc_boot();
    assert_eq!(sys_fork(&mut k), 2);
    sys_yield(&mut k);
    sys_exit(&mut k, 5);
    assert_eq!(sys_waitpid(&mut k, -1, 0x10000), -1);
    assert_eq!(sys_waitpid(&mut k, -1, 0x21ffe), -1);
    assert_eq!(sys_waitpid(&mut k, -1, 0x900000), -1);
    assert_eq!(task(&k, 2).task_status, TaskStatus::Zombie);
    assert_eq!(task(&k, 1).children, vec![2]);
    assert_eq!(sys_waitpid(&mut k, -1, 0x21ffc), 2);
    assert_eq!(exit_code_at(&k, 0x21ffc), 5);
}

#[test]
fn the_root_adopts_the_children_of_a_process_that_exits() {
    let mut k = proc_boot();
    assert_eq!(sys_fork(&mut k), 2);
    assert_eq!(sys_fork(&mut k), 3);
    sys_yield(&mut k);
    assert_eq!(sys_getpid(&k), 2);
    assert_eq!(sys_fork(&mut k), 4);
    assert_eq!(sys_fork(&mut k), 5);
    assert_eq!(task(&k, 2).children, vec![4, 5]);
    sys_exit(&mut k, 11);
    assert_eq!(task(&k, 2).task_status, TaskStatus::Zombie);
    assert!(task(&k, 2).children.is_empty());
    assert_eq!(task(&k, 1).children, vec![2, 3, 4, 5]);
    assert_eq!(task(&k, 4).parent, Some(1));
    assert_eq!(task(&k, 5).parent, Some(1));
    assert_eq!(task(&k, 3).parent, Some(1));
    assert_eq!(task(&k, 2).parent, Some(1));
    while sys_getpid(&k) != 1 {
        sys_yield(&mut k);
    }
    assert_eq!(sys_waitpid(&mut k, -1, 0x20200), 2);
    assert_eq!(exit_code_at(&k, 0x20200), 11);
    assert_eq!(task(&k, 1).children, vec![3, 4, 5]);
    assert_eq!(sys_waitpid(&mut k, 4, 0x20200), -2);
}

#[test]
fn a_collected_pid_is_handed_out_again() {
    let mut k = proc_boot();
    assert_eq!(sys_fork(&mut k), 2);
    assert_eq!(sys_fork(&mut k), 3);
    sys_yield(&mut k);
    assert_eq!(sys_getpid(&k), 2);
    sys_exit(&mut k, 0);
    while sys_getpid(&k) != 1 {
        sys_yield(&mut k);
    }
    assert_eq!(sys_waitpid(&mut k, 2, 0x20200), 2);
    assert_eq!(k.tasks.len(), 4);
    assert_eq!(sys_fork(&mut k), 2);
    assert_eq!(sys_fork(&mut k), 4);
    assert_eq!(task(&k, 1).children, vec![3, 2, 4]);
}

#[test]
fn fork_fails_when_no_pid_is_left() {
    let mut k = proc_boot();
    while k.tasks.len() <= MAX_PID {
        k.tasks.push(None);
    }
    for slot in 2..=MAX_PID {
        let mut t = k.tasks[1].as_ref().unwrap().fork(slot);
        t.task_status = TaskStatus::Zombie;
        k.tasks[1].as_mut().unwrap().children.push(slot);
        k.tasks[slot] = Some(t);
    }
    assert_eq!(k.find_free_pid(), MAX_PID + 1);
    assert_eq!(sys_fork(&mut k), -1);
    assert_eq!(sys_spawn(&mut k, 0x20000, Some(&proc_image(2))), -1);
    assert_eq!(k.tasks.len(), MAX_PID + 1);
    assert_eq!(sys_waitpid(&mut k, 10, 0x20200), 10);
    assert_eq!(sys_fork(&mut k), 10);
}

#[test]
fn exec_replaces_the_program_and_keeps_the_process() {
    let mut k = proc_boot();
    assert_eq!(sys_fork(&mut k), 2);
    sys_yield(&mut k);
    assert_eq!(sys_mmap(&mut k, 0x100000, PAGE_SIZE, 3), 0);
    k.tasks[2].as_mut().unwrap().trap_cx.x[5] = 99;
    let stride = task(&k, 2).stride;
    assert_eq!(k.program_bytes(0x20000), Some(vec![]));
    assert_eq!(sys_exec(&mut k, 0x20000, Some(&proc_image(9))), 0);
    let t = task(&k, 2);
    assert_eq!(t.pid, 2);
    assert_eq!(t.parent, Some(1));
    assert_eq!(t.task_status, TaskStatus::Running);
    assert_eq!(t.trap_cx.sepc, 0x10009);
    assert_eq!(t.trap_cx.x[2], 0x25000);
    assert_eq!(t.trap_cx.x[5], 0);
    assert_eq!(t.trap_cx.kernel_sp, kernel_stack_top(2));
    assert_eq!(t.stride, stride);
    assert_eq!(t.fd_table.len(), 3);
    assert_eq!(t.program_brk, 0x25000);
    assert_eq!(t.memory_set.translate(0x100000), None);
    assert_eq!(k.read_user(0x10000, 8), Some(vec![9; 8]));
    assert_eq!(task(&k, 1).children, vec![2]);
    assert_eq!(sys_getpid(&k), 2);
}

#[test]
fn exec_fails_without_a_file_or_an_image() {
    let mut k = proc_boot();
    assert_eq!(sys_exec(&mut k, 0x20005, Some(&proc_image(9))), -1);
    assert_eq!(sys_exec(&mut k, 0x900000, Some(&proc_image(9))), -1);
    assert_eq!(sys_exec(&mut k, 0x20000, None), -1);
    let bad = ProgramImage {
        entry: 0,
        segments: vec![Segment {
            start_va: 0x1000,
            mem_size: 0,
            perm: MapPermission { r: true, w: false, x: false, u: false },
            data: vec![],
        }],
    };
    assert_eq!(sys_exec(&mut k, 0x20000, Some(&bad)), -1);
    assert_eq!(k.program_bytes(0x20005), None);
    assert_eq!(k.read_user(0x10000, 8), Some(vec![1; 8]));
    assert_eq!(task(&k, 1).trap_cx.sepc, 0x10001);
}

#[test]
fn spawn_starts_a_program_in_a_new_child() {
    let mut k = proc_boot();
    assert!(k.write_user(0x20100, &vec![1, 2, 3]));
    assert_eq!(sys_spawn(&mut k, 0x20000, Some(&proc_image(4))), 2);
    let child = task(&k, 2);
    assert_eq!(child.parent, Some(1));
    assert_eq!(child.task_status, TaskStatus::Ready);
    assert_eq!(child.trap_cx.sepc, 0x10004);
    assert_eq!(child.trap_cx.x[2], 0x25000);
    assert_eq!(child.trap_cx.x[10], 0);
    assert_eq!(child.trap_cx.kernel_sp, kernel_stack_top(2));
    assert_eq!(child.heap_bottom, 0x25000);
    assert_eq!(child.program_brk, 0x25000);
    assert_eq!(child.priority, 16);
    assert_eq!(child.stride, 0);
    assert_eq!(child.fd_table, vec![Some(0), Some(1), Some(1)]);
    assert_eq!(child.fd_table, task(&k, 1).fd_table);
    assert_eq!(child.memory_set.read_bytes(0x10000, 8), Some(vec![4; 8]));
    assert_eq!(child.memory_set.read_bytes(0x20100, 3), Some(vec![0, 0, 0]));
    assert_eq!(task(&k, 1).children, vec![2]);
    assert_eq!(k.ready, vec![2]);
    assert_eq!(sys_spawn(&mut k, 0x20005, Some(&proc_image(4))), -1);
    assert_eq!(sys_spawn(&mut k, 0x20000, None), -1);
    assert_eq!(k.ready, vec![2]);
    assert_eq!(sys_waitpid(&mut k, 2, 0x20200), -2);
}

#[test]
fn when_the_last_process_exits_nobody_runs() {
    let mut k = proc_boot();
    assert_eq!(sys_fork(&mut k), 2);
    sys_exit(&mut k, 3);
    assert_eq!(k.current, Some(2));
    assert_eq!(task(&k, 1).task_status, TaskStatus::Zombie);
    assert_eq!(task(&k, 1).exit_code, 3);
    assert_eq!(task(&k, 1).children, vec![2]);
    sys_exit(&mut k, 4);
    assert_eq!(k.current, None);
    assert!(k.ready.is_empty());
    assert_eq!(task(&k, 2).task_status, TaskStatus::Zombie);
    k.run_next();
    assert_eq!(k.current, None);
}

#[test]
fn the_root_collects_the_zombies_that_it_adopted() {
    let mut k = proc_boot();
    assert_eq!(sys_fork(&mut k), 2);
    sys_yield(&mut k);
    assert_eq!(sys_getpid(&k), 2);
    assert_eq!(sys_fork(&mut k), 3);
    while sys_getpid(&k) != 3 {
        sys_yield(&mut k);
    }
    sys_exit(&mut k, 33);
    while sys_getpid(&k) != 2 {
        sys_yield(&mut k);
    }
    assert_eq!(task(&k, 2).children, vec![3]);
    sys_exit(&mut k, 22);
    assert_eq!(sys_getpid(&k), 1);
    assert_eq!(k.current, Some(1));
    assert_eq!(task(&k, 1).children, vec![2, 3]);
    assert_eq!(task(&k, 3).parent, Some(1));
    assert_eq!(task(&k, 3).task_status, TaskStatus::Zombie);
    assert_eq!(sys_waitpid(&mut k, 3, 0x20200), 3);
    assert_eq!(exit_code_at(&k, 0x20200), 33);
    assert_eq!(sys_waitpid(&mut k, -1, 0x20200), 2);
    assert_eq!(exit_code_at(&k, 0x20200), 22);
    assert_eq!(sys_waitpid(&mut k, -1, 0x20200), -1);
    assert_eq!(k.tasks.iter().filter(|t| t.is_some()).count(), 1);
    assert!(k.ready.is_empty());
}

#[test]
fn a_process_cannot_collect_what_is_not_its_child() {
    let mut k = proc_boot();
    assert_eq!(sys_fork(&mut k), 2);
    assert_eq!(sys_fork(&mut k), 3);
    sys_yield(&mut k);
    assert_eq!(sys_getpid(&k), 2);
    sys_yield(&mut k);
    assert_eq!(sys_getpid(&k), 3);
    sys_exit(&mut k, 1);
    while sys_getpid(&k) != 2 {
        sys_yield(&mut k);
    }
    assert_eq!(sys_waitpid(&mut k, 3, 0x20200), -1);
    assert_eq!(sys_waitpid(&mut k, 1, 0x20200), -1);
    assert_eq!(sys_waitpid(&mut k, 2, 0x20200), -1);
    assert_eq!(sys_waitpid(&mut k, -1, 0x20200), -1);
    assert_eq!(task(&k, 3).task_status, TaskStatus::Zombie);
}
