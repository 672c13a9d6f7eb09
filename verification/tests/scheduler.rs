use kernel_core::config::{BIG_STRIDE, MAX_PASS};
use kernel_core::kernel::Kernel;
use kernel_core::loader::{ProgramImage, Segment};
use kernel_core::mm::MapPermission;
use kernel_core::sched::{pass_of, pick_index, stride_lt};
use kernel_core::syscall::process::{sys_fork, sys_getpid, sys_set_priority, sys_yield};
use kernel_core::task::TaskStatus;

fn sched_boot() -> Kernel {
    let image = ProgramImage {
        entry: 0x10000,
        segments: vec![Segment {
            start_va: 0x10000,
            mem_size: 0x1000,
            perm: MapPermission { r: true, w: true, x: true, u: false },
            data: vec![],
        }],
    };
    Kernel::new(&image).unwrap()
}

#[test]
fn set_priority_rejects_values_below_two() {
    let mut k = sched_boot();
    assert_eq!(sys_set_priority(&mut k, 1), -1);
    assert_eq!(sys_set_priority(&mut k, 0), -1);
    assert_eq!(sys_set_priority(&mut k, -1), -1);
    assert_eq!(sys_set_priority(&mut k, isize::MIN), -1);
    let t = k.tasks[1].as_ref().unwrap();
    assert_eq!(t.priority, 16);
    assert_eq!(t.pass, BIG_STRIDE / 16);
}

#[test]
fn set_priority_echoes_the_value_and_sets_the_pass() {
    let mut k = sched_boot();
    assert_eq!(sys_set_priority(&mut k, 2), 2);
    assert_eq!(k.tasks[1].as_ref().unwrap().pass, MAX_PASS);
    assert_eq!(sys_set_priority(&mut k, 10), 10);
    assert_eq!(k.tasks[1].as_ref().unwrap().priority, 10);
    assert_eq!(k.tasks[1].as_ref().unwrap().pass, 1844674407370955161);
    assert_eq!(sys_set_priority(&mut k, isize::MAX), isize::MAX);
    assert_eq!(k.tasks[1].as_ref().unwrap().pass, 2);
    assert_eq!(k.tasks[1].as_ref().unwrap().stride, 0);
    assert_eq!(pass_of(16), 0x0fff_ffff_ffff_ffff);
    assert_eq!(pass_of(3), 0x5555_5555_5555_5555);
}

#[test]
fn strides_are_ordered_by_the_sign_of_their_difference() {
    assert!(stride_lt(1, 2));
    assert!(!stride_lt(2, 1));
    assert!(!stride_lt(5, 5));
    assert!(stride_lt(u64::MAX - 5, 3));
    assert!(!stride_lt(3, u64::MAX - 5));
    assert!(stride_lt(0, MAX_PASS));
    assert!(!stride_lt(MAX_PASS, 0));
    assert!(stride_lt(0x8000_0000_0000_0000, 0));
    assert!(stride_lt(0, 0x8000_0000_0000_0000));
}

#[test]
fn the_least_stride_is_picked_and_the_first_of_equals() {
    assert_eq!(pick_index(&vec![7]), 0);
    assert_eq!(pick_index(&vec![7, 3, 9]), 1);
    assert_eq!(pick_index(&vec![4, 4, 4]), 0);
    assert_eq!(pick_index(&vec![9, 4, 4, 2, 2]), 3);
    assert_eq!(pick_index(&vec![2, u64::MAX - 1, u64::MAX]), 1);
    assert_eq!(pick_index(&vec![u64::MAX, 0, 1]), 0);
}

#[test]
fn yield_queues_the_process_last_with_its_stride_advanced() {
    let mut k = sched_boot();
    assert_eq!(sys_yield(&mut k), 0);
    assert_eq!(sys_getpid(&k), 1);
    assert_eq!(k.tasks[1].as_ref().unwrap().stride, BIG_STRIDE / 16);
    assert!(k.ready.is_empty());
    assert_eq!(sys_fork(&mut k), 2);
    assert_eq!(sys_fork(&mut k), 3);
    assert_eq!(sys_yield(&mut k), 0);
    assert_eq!(k.current, Some(2));
    assert_eq!(k.ready, vec![3, 1]);
    assert_eq!(k.tasks[1].as_ref().unwrap().task_status, TaskStatus::Ready);
    assert_eq!(k.tasks[1].as_ref().unwrap().stride, 2 * (BIG_STRIDE / 16));
    assert_eq!(k.tasks[2].as_ref().unwrap().task_status, TaskStatus::Running);
    assert_eq!(sys_yield(&mut k), 0);
    assert_eq!(k.current, Some(3));
    assert_eq!(k.ready, vec![1, 2]);
    assert_eq!(sys_yield(&mut k), 0);
    assert_eq!(k.current, Some(2));
    assert_eq!(k.ready, vec![1, 3]);
}

#[test]
fn strides_wrap_around_and_stay_ordered() {
    let mut k = sched_boot();
    assert_eq!(sys_set_priority(&mut k, 2), 2);
    assert_eq!(sys_fork(&mut k), 2);
    sys_yield(&mut k);
    assert_eq!(sys_getpid(&k), 2);
    assert_eq!(sys_set_priority(&mut k, 2), 2);
    let mut turns = Vec::new();
    for _ in 0..8 {
        sys_yield(&mut k);
        turns.push(sys_getpid(&k));
    }
    assert_eq!(turns, vec![1, 2, 1, 2, 1, 2, 1, 2]);
    assert_eq!(k.tasks[1].as_ref().unwrap().stride, MAX_PASS.wrapping_mul(5));
    assert_eq!(k.tasks[2].as_ref().unwrap().stride, MAX_PASS.wrapping_mul(4));
}

#[test]
fn twice_the_priority_gets_twice_the_turns() {
    let mut k = sched_boot();
    assert_eq!(sys_set_priority(&mut k, 10), 10);
    assert_eq!(sys_fork(&mut k), 2);
    sys_yield(&mut k);
    assert_eq!(sys_getpid(&k), 2);
    assert_eq!(sys_set_priority(&mut k, 20), 20);
    let mut turns = [0usize; 3];
    for _ in 0..30000 {
        sys_yield(&mut k);
        turns[sys_getpid(&k) as usize] += 1;
    }
    assert_eq!(turns[1] + turns[2], 30000);
    let ratio = turns[2] as f64 / turns[1] as f64;
    assert!(ratio > 1.99 && ratio < 2.01);
    let way = |turns: usize, priority: isize| turns as i128 * pass_of(priority) as i128;
    let apart = way(turns[1], 10) - way(turns[2], 20);
    assert!(apart.abs() <= 2 * MAX_PASS as i128);
}

#[test]
fn three_processes_share_the_processor_by_priority() {
    let mut k = sched_boot();
    assert_eq!(sys_fork(&mut k), 2);
    assert_eq!(sys_fork(&mut k), 3);
    let priorities: [isize; 4] = [0, 2, 5, 30];
    let mut set = 0;
    while set < 3 {
        let pid = sys_getpid(&k) as usize;
        if k.tasks[pid].as_ref().unwrap().priority != priorities[pid] {
            assert_eq!(sys_set_priority(&mut k, priorities[pid]), priorities[pid]);
            set += 1;
        }
        sys_yield(&mut k);
    }
    let mut turns = [0usize; 4];
    for _ in 0..37000 {
        sys_yield(&mut k);
        turns[sys_getpid(&k) as usize] += 1;
    }
    for a in 1..4 {
        for b in 1..4 {
            let way = |p: usize| turns[p] as i128 * pass_of(priorities[p]) as i128;
            assert!((way(a) - way(b)).abs() <= 4 * MAX_PASS as i128);
        }
    }
    assert!((turns[1] as i64 - 2000).abs() <= 10);
    assert!((turns[2] as i64 - 5000).abs() <= 10);
    assert!((turns[3] as i64 - 30000).abs() <= 10);
}

#[test]
fn a_process_starts_when_it_first_runs() {
    let mut k = sched_boot();
    assert_eq!(sys_fork(&mut k), 2);
    k.tick(5_000);
    assert_eq!(k.clock_us, 5_000);
    k.tick(4_000);
    assert_eq!(k.clock_us, 5_000);
    sys_yield(&mut k);
    assert_eq!(k.tasks[2].as_ref().unwrap().started, Some(5));
    k.tick(9_000);
    sys_yield(&mut k);
    sys_yield(&mut k);
    assert_eq!(k.tasks[2].as_ref().unwrap().started, Some(5));
    assert_eq!(k.tasks[1].as_ref().unwrap().started, Some(0));
}
