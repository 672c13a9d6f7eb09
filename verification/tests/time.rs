use kernel_core::codec::{bytes_copy, bytes_eq, push_u32_le, push_u64_le, push_zeros};
use kernel_core::error::KernelError;
use kernel_core::kernel::Kernel;
use kernel_core::loader::{ProgramImage, Segment};
use kernel_core::mm::MapPermission;
use kernel_core::syscall::process::{
    sys_fork, sys_get_time, sys_task_info, sys_yield, TaskInfo, TimeVal, TASK_INFO_SIZE,
    TIMEVAL_SIZE,
};
use kernel_core::task::TaskStatus;

const OUT: usize = 0x20000;

fn time_boot() -> Kernel {
    let image = ProgramImage {
        entry: 0x10000,
        segments: vec![
            Segment {
                start_va: 0x10000,
                mem_size: 0x1000,
                perm: MapPermission { r: true, w: false, x: true, u: false },
                data: vec![],
            },
            Segment {
                start_va: 0x20000,
                mem_size: 0x2000,
                perm: MapPermission { r: true, w: true, x: false, u: false },
                data: vec![],
            },
        ],
    };
    Kernel::new(&image).unwrap()
}

#[test]
fn error_kinds_collapse_to_two_results() {
    assert_eq!(KernelError::InvalidArgument.code(), -1);
    assert_eq!(KernelError::Overlap.code(), -1);
    assert_eq!(KernelError::NotMapped.code(), -1);
    assert_eq!(KernelError::NotFound.code(), -1);
    assert_eq!(KernelError::NotReady.code(), -2);
}

#[test]
fn numbers_are_encoded_least_significant_byte_first() {
    let mut out = vec![0xaa];
    push_u32_le(&mut out, 0x01020304);
    push_u64_le(&mut out, 0x1112131415161718);
    push_zeros(&mut out, 2);
    push_u32_le(&mut out, u32::MAX);
    assert_eq!(
        out,
        vec![
            0xaa, 4, 3, 2, 1, 0x18, 0x17, 0x16, 0x15, 0x14, 0x13, 0x12, 0x11, 0, 0, 0xff, 0xff,
            0xff, 0xff
        ]
    );
    assert!(bytes_eq(&out, &bytes_copy(&out)));
    assert!(!bytes_eq(&vec![1, 2], &vec![1, 3]));
    assert!(!bytes_eq(&vec![1, 2], &vec![1]));
    assert!(bytes_eq(&vec![], &vec![]));
}

#[test]
fn get_time_writes_seconds_and_microseconds() {
    let mut k = time_boot();
    k.tick(3_000_007);
    assert_eq!(sys_get_time(&mut k, OUT, 0), 0);
    let bytes = k.read_user(OUT, TIMEVAL_SIZE).unwrap();
    assert_eq!(bytes, vec![3, 0, 0, 0, 0, 0, 0, 0, 7, 0, 0, 0, 0, 0, 0, 0]);
    k.tick(59_999_999);
    assert_eq!(sys_get_time(&mut k, OUT + 0xffc, 0), 0);
    let bytes = k.read_user(OUT + 0xffc, TIMEVAL_SIZE).unwrap();
    let mut want = 59u64.to_le_bytes().to_vec();
    want.extend_from_slice(&999_999u64.to_le_bytes());
    assert_eq!(bytes, want);
    let t = TimeVal::from_micros(1_234_567);
    assert_eq!((t.sec, t.usec), (1, 234_567));
    assert_eq!(t.encode().len(), TIMEVAL_SIZE);
}

#[test]
fn get_time_fails_where_the_process_may_not_write() {
    let mut k = time_boot();
    assert_eq!(sys_get_time(&mut k, 0x10000, 0), -1);
    assert_eq!(sys_get_time(&mut k, 0x21ff8, 0), -1);
    assert_eq!(sys_get_time(&mut k, 0x900000, 0), -1);
    assert_eq!(sys_get_time(&mut k, usize::MAX - 3, 0), -1);
    assert_eq!(k.read_user(0x21ff8, 8), Some(vec![0; 8]));
}

#[test]
fn task_info_reports_state_counts_and_time() {
    let mut k = time_boot();
    k.count_syscall(64);
    k.count_syscall(64);
    k.count_syscall(499);
    k.count_syscall(500);
    k.count_syscall(usize::MAX);
    k.tick(1_234_999);
    assert_eq!(sys_task_info(&mut k, OUT), 0);
    let bytes = k.read_user(OUT, TASK_INFO_SIZE).unwrap();
    assert_eq!(bytes.len(), 2016);
    assert_eq!(&bytes[..4], &[1, 0, 0, 0]);
    for id in 0..500usize {
        let want: u32 = match id {
            64 => 2,
            499 => 1,
            _ => 0,
        };
        assert_eq!(&bytes[4 + 4 * id..8 + 4 * id], &want.to_le_bytes());
    }
    assert_eq!(&bytes[2004..2008], &[0, 0, 0, 0]);
    assert_eq!(&bytes[2008..], &1234u64.to_le_bytes());
    assert_eq!(sys_task_info(&mut k, 0x10000), -1);
    assert_eq!(sys_task_info(&mut k, 0x21900), -1);
}

#[test]
fn task_info_counts_time_from_the_first_turn() {
    let mut k = time_boot();
    assert_eq!(sys_fork(&mut k), 2);
    k.tick(10_000_000);
    sys_yield(&mut k);
    assert_eq!(k.current, Some(2));
    assert_eq!(sys_task_info(&mut k, OUT), 0);
    assert_eq!(&k.read_user(OUT + 2008, 8).unwrap(), &0u64.to_le_bytes());
    k.tick(10_250_000);
    assert_eq!(sys_task_info(&mut k, OUT), 0);
    assert_eq!(&k.read_user(OUT + 2008, 8).unwrap(), &250u64.to_le_bytes());
    k.tasks[2].as_mut().unwrap().started = Some(20_000);
    assert_eq!(sys_task_info(&mut k, OUT), 0);
    assert_eq!(&k.read_user(OUT + 2008, 8).unwrap(), &0u64.to_le_bytes());
}

#[test]
fn a_count_stays_at_its_largest_value() {
    let mut k = time_boot();
    k.tasks[1].as_mut().unwrap().syscall_times[3] = u32::MAX - 1;
    k.count_syscall(3);
    assert_eq!(k.tasks[1].as_ref().unwrap().syscall_times[3], u32::MAX);
    k.count_syscall(3);
    assert_eq!(k.tasks[1].as_ref().unwrap().syscall_times[3], u32::MAX);
}

#[test]
fn a_task_info_record_encodes_each_state() {
    let info = |status| TaskInfo { status, syscall_times: vec![0x0a0b0c0d, 1], time: 0x0102 };
    assert_eq!(
        info(TaskStatus::Ready).encode(),
        vec![0, 0, 0, 0, 0x0d, 0x0c, 0x0b, 0x0a, 1, 0, 0, 0, 0, 0, 0, 0, 2, 1, 0, 0, 0, 0, 0, 0]
    );
    assert_eq!(info(TaskStatus::Running).encode()[0], 1);
    assert_eq!(info(TaskStatus::Zombie).encode()[0], 2);
}
