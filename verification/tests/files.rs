use kernel_core::error::KernelError;
use kernel_core::fs::{
    FileHandle, FileKind, FileSystem, Stat, O_CREATE, O_RDONLY, O_RDWR, O_TRUNC, O_WRONLY,
    STAT_MODE_FILE, STAT_SIZE,
};
use kernel_core::kernel::Kernel;
use kernel_core::loader::{ProgramImage, Segment};
use kernel_core::mm::MapPermission;
use kernel_core::syscall::fs::{
    descriptor_at, find_free_place, handle_at, sys_close, sys_fstat, sys_linkat, sys_open,
    sys_read, sys_unlinkat, sys_write,
};
use kernel_core::syscall::process::{sys_exit, sys_fork, sys_spawn, sys_waitpid, sys_yield};

const NAME_A: usize = 0x20000;
const NAME_B: usize = 0x20002;
const NAME_LONG: usize = 0x20004;
const BUF: usize = 0x20100;
const STAT: usize = 0x20200;
const READ_ONLY: usize = 0x10000;

fn files_boot() -> Kernel {
    let image = ProgramImage {
        entry: 0x10000,
        segments: vec![
            Segment {
                start_va: 0x10000,
                mem_size: 0x1000,
                perm: MapPermission { r: true, w: false, x: true, u: false },
                data: b"text".to_vec(),
            },
            Segment {
                start_va: 0x20000,
                mem_size: 0x2000,
                perm: MapPermission { r: true, w: true, x: false, u: false },
                data: b"a\0b\0a-long-name\0".to_vec(),
            },
        ],
    };
    Kernel::new(&image).unwrap()
}

fn nlink_at(kernel: &mut Kernel, path: usize) -> u32 {
    let fd = sys_open(kernel, path, O_RDONLY);
    assert!(fd >= 0);
    assert_eq!(sys_fstat(kernel, fd as usize, STAT), 0);
    let bytes = kernel.read_user(STAT, STAT_SIZE).unwrap();
    assert_eq!(sys_close(kernel, fd as usize), 0);
    u32::from_le_bytes([bytes[20], bytes[21], bytes[22], bytes[23]])
}

fn put(kernel: &mut Kernel, va: usize, bytes: &[u8]) {
    assert!(kernel.write_user(va, &bytes.to_vec()));
}

#[test]
fn linking_and_unlinking_count_the_names_of_an_inode() {
    let mut k = files_boot();
    let fd = sys_open(&mut k, NAME_A, O_CREATE | O_WRONLY);
    assert_eq!(fd, 3);
    assert_eq!(sys_close(&mut k, 3), 0);
    assert_eq!(nlink_at(&mut k, NAME_A), 1);
    assert_eq!(sys_linkat(&mut k, NAME_A, NAME_B), 0);
    assert_eq!(nlink_at(&mut k, NAME_A), 2);
    assert_eq!(nlink_at(&mut k, NAME_B), 2);
    assert_eq!(sys_unlinkat(&mut k, NAME_A), 0);
    assert_eq!(nlink_at(&mut k, NAME_B), 1);
    assert_eq!(sys_open(&mut k, NAME_A, O_RDONLY), -1);
    let held = sys_open(&mut k, NAME_B, O_RDONLY);
    assert_eq!(held, 3);
    assert_eq!(sys_unlinkat(&mut k, NAME_B), 0);
    assert_eq!(k.fs.inodes[0].nlink, 0);
    assert_eq!(sys_fstat(&mut k, 3, STAT), 0);
    let bytes = k.read_user(STAT, STAT_SIZE).unwrap();
    assert_eq!(&bytes[20..24], &[0, 0, 0, 0]);
    assert!(k.fs.dir.is_empty());
    assert_eq!(sys_unlinkat(&mut k, NAME_B), -1);
}

#[test]
fn link_rejects_equal_names_and_missing_files() {
    let mut k = files_boot();
    assert_eq!(sys_linkat(&mut k, NAME_A, NAME_B), -1);
    assert_eq!(sys_open(&mut k, NAME_A, O_CREATE), 3);
    assert_eq!(sys_linkat(&mut k, NAME_A, NAME_A), -1);
    assert_eq!(sys_linkat(&mut k, NAME_B, NAME_LONG), -1);
    assert_eq!(sys_linkat(&mut k, NAME_A, 0x900000), -1);
    assert_eq!(sys_linkat(&mut k, 0x900000, NAME_B), -1);
    assert_eq!(k.fs.dir.len(), 1);
    assert_eq!(k.fs.inodes[0].nlink, 1);
    assert_eq!(k.fs.link(&b"a".to_vec(), &b"a".to_vec()), Err(KernelError::InvalidArgument));
    assert_eq!(k.fs.link(&b"x".to_vec(), &b"a".to_vec()), Err(KernelError::NotFound));
    assert_eq!(k.fs.unlink(&b"x".to_vec()), Err(KernelError::NotFound));
    assert_eq!(sys_unlinkat(&mut k, 0x900000), -1);
    assert_eq!(sys_unlinkat(&mut k, NAME_LONG), -1);
}

#[test]
fn a_name_resolves_to_its_first_entry() {
    let mut fs = FileSystem::new();
    assert_eq!(fs.create(&b"a".to_vec()), 0);
    assert_eq!(fs.create(&b"b".to_vec()), 1);
    assert_eq!(fs.link(&b"b".to_vec(), &b"a".to_vec()), Ok(()));
    assert_eq!(fs.find(&b"a".to_vec()), Some(0));
    assert_eq!(fs.find_entry(&b"a".to_vec()), Some(0));
    assert_eq!(fs.inodes[1].nlink, 2);
    assert_eq!(fs.unlink(&b"a".to_vec()), Ok(()));
    assert_eq!(fs.inodes[0].nlink, 0);
    assert_eq!(fs.find(&b"a".to_vec()), Some(1));
    assert_eq!(fs.find_entry(&b"a".to_vec()), Some(1));
    assert_eq!(fs.find(&b"c".to_vec()), None);
    assert_eq!(fs.find(&b"".to_vec()), None);
}

#[test]
fn fstat_writes_the_record_of_a_file() {
    let mut k = files_boot();
    assert_eq!(sys_open(&mut k, NAME_A, O_CREATE), 3);
    assert_eq!(sys_open(&mut k, NAME_B, O_CREATE), 4);
    assert_eq!(sys_linkat(&mut k, NAME_B, NAME_LONG), 0);
    put(&mut k, STAT, &[0xee; 96]);
    assert_eq!(sys_fstat(&mut k, 4, STAT), 0);
    let bytes = k.read_user(STAT, 96).unwrap();
    let mut want = vec![0u8; 8];
    want.extend_from_slice(&1u64.to_le_bytes());
    want.extend_from_slice(&0o100000u32.to_le_bytes());
    want.extend_from_slice(&2u32.to_le_bytes());
    want.extend_from_slice(&[0u8; 56]);
    want.extend_from_slice(&[0xee; 16]);
    assert_eq!(bytes, want);
    let stat = Stat { dev: 0x0102030405060708, ino: 9, mode: STAT_MODE_FILE, nlink: 0x01020304 };
    let encoded = stat.encode();
    assert_eq!(encoded.len(), STAT_SIZE);
    assert_eq!(&encoded[..8], &[8, 7, 6, 5, 4, 3, 2, 1]);
    assert_eq!(&encoded[8..16], &[9, 0, 0, 0, 0, 0, 0, 0]);
    assert_eq!(&encoded[16..20], &[0, 0x80, 0, 0]);
    assert_eq!(&encoded[20..24], &[4, 3, 2, 1]);
    assert_eq!(&encoded[24..], &[0u8; 56]);
}

#[test]
fn fstat_of_a_console_stream_reports_the_mode_of_a_file_and_no_inode() {
    let mut k = files_boot();
    for fd in 0..3usize {
        put(&mut k, STAT, &[0xee; STAT_SIZE]);
        assert_eq!(sys_fstat(&mut k, fd, STAT), 0);
        let bytes = k.read_user(STAT, STAT_SIZE).unwrap();
        let mut want = vec![0u8; 16];
        want.extend_from_slice(&0o100000u32.to_le_bytes());
        want.extend_from_slice(&[0u8; 60]);
        assert_eq!(bytes, want);
    }
    assert_eq!(STAT_MODE_FILE, 0o100000);
}

#[test]
fn fstat_fails_on_a_bad_descriptor_or_pointer() {
    let mut k = files_boot();
    assert_eq!(sys_fstat(&mut k, 3, STAT), -1);
    assert_eq!(sys_fstat(&mut k, usize::MAX, STAT), -1);
    assert_eq!(sys_fstat(&mut k, 0, READ_ONLY), -1);
    assert_eq!(sys_fstat(&mut k, 0, 0x21fff), -1);
    assert_eq!(sys_fstat(&mut k, 0, 0x900000), -1);
    assert_eq!(sys_close(&mut k, 0), 0);
    assert_eq!(sys_fstat(&mut k, 0, STAT), -1);
    assert_eq!(k.read_user(READ_ONLY, 4), Some(b"text".to_vec()));
}

#[test]
fn open_takes_the_lowest_free_slot() {
    let mut k = files_boot();
    assert_eq!(sys_open(&mut k, NAME_A, O_CREATE), 3);
    assert_eq!(sys_open(&mut k, NAME_A, O_RDONLY), 4);
    assert_eq!(sys_open(&mut k, NAME_A, O_RDONLY), 5);
    assert_eq!(sys_close(&mut k, 4), 0);
    assert_eq!(sys_close(&mut k, 1), 0);
    assert_eq!(k.tasks[1].as_ref().unwrap().fd_table.len(), 6);
    assert_eq!(k.tasks[1].as_ref().unwrap().lowest_free_fd(), 1);
    assert_eq!(sys_open(&mut k, NAME_A, O_RDONLY), 1);
    assert_eq!(sys_open(&mut k, NAME_A, O_RDONLY), 4);
    assert_eq!(sys_open(&mut k, NAME_A, O_RDONLY), 6);
    assert_eq!(k.tasks[1].as_mut().unwrap().alloc_fd(), 7);
    assert_eq!(k.tasks[1].as_ref().unwrap().fd_table.len(), 8);
    assert_eq!(k.tasks[1].as_mut().unwrap().alloc_fd(), 7);
    assert_eq!(k.tasks[1].as_ref().unwrap().fd_table.len(), 8);
}

#[test]
fn open_decodes_its_flags() {
    let mut k = files_boot();
    assert_eq!(sys_open(&mut k, NAME_A, O_RDONLY), -1);
    assert_eq!(sys_open(&mut k, NAME_A, O_TRUNC), -1);
    assert_eq!(sys_open(&mut k, NAME_A, O_CREATE), 3);
    let regular = |readable, writable| {
        Some(FileHandle { kind: FileKind::Regular, inode: 0, readable, writable, offset: 0 })
    };
    assert_eq!(handle_at(&k, 3), regular(true, true));
    assert_eq!(sys_open(&mut k, NAME_A, O_RDONLY), 4);
    assert_eq!(handle_at(&k, 4), regular(true, false));
    assert_eq!(sys_open(&mut k, NAME_A, O_WRONLY), 5);
    assert_eq!(handle_at(&k, 5), regular(false, true));
    assert_eq!(sys_open(&mut k, NAME_A, O_RDWR), 6);
    assert_eq!(handle_at(&k, 6), regular(true, true));
    assert_eq!(sys_open(&mut k, NAME_A, O_WRONLY | O_RDWR), 7);
    assert_eq!(handle_at(&k, 7), regular(false, true));
    assert_eq!(sys_open(&mut k, NAME_A, O_TRUNC), 8);
    assert_eq!(handle_at(&k, 8), regular(true, true));
    assert_eq!(sys_open(&mut k, NAME_A, 4), -1);
    assert_eq!(sys_open(&mut k, NAME_A, 0x800), -1);
    assert_eq!(sys_open(&mut k, NAME_A, 0x8000_0000), -1);
    assert_eq!(sys_open(&mut k, 0x900000, O_CREATE), -1);
    put(&mut k, 0x21fff, b"z");
    assert_eq!(sys_open(&mut k, 0x21fff, O_CREATE), -1);
    assert_eq!(handle_at(&k, 9), None);
    assert_eq!(k.fs.dir.len(), 1);
    assert_eq!(k.fs.dir[0].name, b"a".to_vec());
    assert_eq!(sys_open(&mut k, NAME_LONG, O_CREATE | O_RDWR), 9);
    assert_eq!(k.fs.dir[1].name, b"a-long-name".to_vec());
    assert_eq!(k.fs.dir[1].inode, 1);
}

#[test]
fn close_empties_a_slot_once() {
    let mut k = files_boot();
    assert_eq!(sys_close(&mut k, 2), 0);
    assert_eq!(sys_close(&mut k, 2), -1);
    assert_eq!(sys_close(&mut k, 3), -1);
    assert_eq!(sys_close(&mut k, usize::MAX), -1);
    let table = &k.tasks[1].as_ref().unwrap().fd_table;
    assert_eq!(table.len(), 3);
    assert!(table[0].is_some() && table[1].is_some() && table[2].is_none());
    assert_eq!(k.tasks[1].as_mut().unwrap().close_fd(2), Err(KernelError::NotFound));
    assert_eq!(k.tasks[1].as_mut().unwrap().close_fd(1), Ok(()));
}

#[test]
fn writes_and_reads_move_the_offset_of_their_handle() {
    let mut k = files_boot();
    assert_eq!(sys_open(&mut k, NAME_A, O_CREATE | O_RDWR), 3);
    put(&mut k, BUF, b"hello world");
    assert_eq!(sys_write(&mut k, 3, BUF, 5), 5);
    assert_eq!(sys_write(&mut k, 3, BUF + 5, 6), 6);
    assert_eq!(k.fs.inodes[0].data, b"hello world".to_vec());
    assert_eq!(handle_at(&k, 3).unwrap().offset, 11);
    assert_eq!(sys_read(&mut k, 3, BUF, 4), 0);
    assert_eq!(sys_open(&mut k, NAME_A, O_RDONLY), 4);
    put(&mut k, BUF, &[0; 16]);
    assert_eq!(sys_read(&mut k, 4, BUF, 4), 4);
    assert_eq!(k.read_user(BUF, 6), Some(b"hell\0\0".to_vec()));
    assert_eq!(sys_read(&mut k, 4, BUF, 100), 7);
    assert_eq!(k.read_user(BUF, 8), Some(b"o world\0".to_vec()));
    assert_eq!(sys_read(&mut k, 4, BUF, 100), 0);
    assert_eq!(handle_at(&k, 4).unwrap().offset, 11);
    assert_eq!(sys_write(&mut k, 4, BUF, 1), -1);
    assert_eq!(sys_open(&mut k, NAME_A, O_WRONLY), 5);
    assert_eq!(sys_read(&mut k, 5, BUF, 1), -1);
    put(&mut k, BUF, b"J");
    assert_eq!(sys_write(&mut k, 5, BUF, 1), 1);
    assert_eq!(k.fs.inodes[0].data, b"Jello world".to_vec());
    assert_eq!(sys_write(&mut k, 5, BUF, 0), 0);
    assert_eq!(sys_open(&mut k, NAME_A, O_TRUNC | O_RDWR), 6);
    assert!(k.fs.inodes[0].data.is_empty());
    put(&mut k, BUF, b"xy");
    assert_eq!(sys_write(&mut k, 3, BUF, 2), 2);
    let mut want = vec![0u8; 11];
    want.extend_from_slice(b"xy");
    assert_eq!(k.fs.inodes[0].data, want);
    assert_eq!(k.fs.read_at(0, 10, 2), vec![0, b'x']);
    assert_eq!(k.fs.read_at(0, 13, 2), Vec::<u8>::new());
}

#[test]
fn reads_and_writes_fail_on_bad_descriptors_and_buffers() {
    let mut k = files_boot();
    assert_eq!(sys_open(&mut k, NAME_A, O_CREATE | O_RDWR), 3);
    assert_eq!(sys_write(&mut k, 4, BUF, 1), -1);
    assert_eq!(sys_read(&mut k, 4, BUF, 1), -1);
    assert_eq!(sys_write(&mut k, usize::MAX, BUF, 1), -1);
    assert_eq!(sys_write(&mut k, 3, 0x900000, 1), -1);
    assert_eq!(sys_write(&mut k, 3, 0x21fff, 2), -1);
    assert_eq!(sys_write(&mut k, 3, BUF, usize::MAX), -1);
    assert_eq!(sys_write(&mut k, 3, READ_ONLY, 4), 4);
    assert_eq!(sys_read(&mut k, 3, READ_ONLY, 1), -1);
    assert_eq!(sys_read(&mut k, 3, 0x900000, 1), -1);
    assert_eq!(sys_read(&mut k, 3, BUF, usize::MAX), -1);
    assert_eq!(k.fs.inodes[0].data, b"text".to_vec());
    assert_eq!(handle_at(&k, 3).unwrap().offset, 4);
    assert_eq!(sys_close(&mut k, 3), 0);
    assert_eq!(sys_write(&mut k, 3, BUF, 1), -1);
    assert_eq!(sys_read(&mut k, 3, BUF, 1), -1);
}

#[test]
fn the_console_takes_output_and_gives_input() {
    let mut k = files_boot();
    put(&mut k, BUF, b"hi there");
    assert_eq!(sys_write(&mut k, 1, BUF, 2), 2);
    assert_eq!(sys_write(&mut k, 2, BUF + 2, 6), 6);
    assert_eq!(k.console.output, b"hi there".to_vec());
    assert_eq!(sys_write(&mut k, 0, BUF, 2), -1);
    assert_eq!(sys_read(&mut k, 1, BUF, 2), -1);
    assert_eq!(sys_read(&mut k, 0, BUF, 4), 0);
    k.console.input.extend_from_slice(b"abcdef");
    put(&mut k, BUF, &[0; 8]);
    assert_eq!(sys_read(&mut k, 0, BUF, 4), 4);
    assert_eq!(k.read_user(BUF, 5), Some(b"abcd\0".to_vec()));
    assert_eq!(k.console.input, b"ef".to_vec());
    assert_eq!(sys_read(&mut k, 0, READ_ONLY, 1), -1);
    assert_eq!(k.console.input, b"ef".to_vec());
    assert_eq!(sys_read(&mut k, 0, BUF, 4), 2);
    assert_eq!(k.read_user(BUF, 5), Some(b"efcd\0".to_vec()));
    assert!(k.console.input.is_empty());
    assert_eq!(k.console.output, b"hi there".to_vec());
}

#[test]
fn a_fork_shares_the_open_files_of_its_parent() {
    let mut k = files_boot();
    assert_eq!(sys_open(&mut k, NAME_A, O_CREATE | O_RDWR), 3);
    put(&mut k, BUF, b"shared");
    assert_eq!(sys_write(&mut k, 3, BUF, 6), 6);
    assert_eq!(sys_close(&mut k, 1), 0);
    assert_eq!(sys_fork(&mut k), 2);
    assert_eq!(k.tasks[2].as_ref().unwrap().fd_table, vec![Some(0), None, Some(1), Some(2)]);
    sys_yield(&mut k);
    assert_eq!(k.current, Some(2));
    assert_eq!(handle_at(&k, 1), None);
    assert_eq!(handle_at(&k, 3).unwrap().inode, 0);
    assert_eq!(handle_at(&k, 3).unwrap().offset, 6);
    assert_eq!(sys_open(&mut k, NAME_B, O_CREATE), 1);
    assert_eq!(sys_open(&mut k, NAME_A, O_RDONLY), 4);
    assert_eq!(sys_read(&mut k, 4, BUF + 16, 6), 6);
    assert_eq!(k.read_user(BUF + 16, 6), Some(b"shared".to_vec()));
    put(&mut k, BUF, b"!");
    assert_eq!(sys_write(&mut k, 3, BUF, 1), 1);
    assert_eq!(k.fs.inodes[0].data, b"shared!".to_vec());
    assert_eq!(k.tasks[1].as_ref().unwrap().fd_table.len(), 4);
    assert!(k.tasks[1].as_ref().unwrap().fd_table[1].is_none());
    sys_yield(&mut k);
    assert_eq!(k.current, Some(1));
    assert_eq!(handle_at(&k, 3).unwrap().offset, 7);
    put(&mut k, BUF, b"?");
    assert_eq!(sys_write(&mut k, 3, BUF, 1), 1);
    assert_eq!(k.fs.inodes[0].data, b"shared!?".to_vec());
    assert_eq!(descriptor_at(&k, 3), Some(2));
    assert_eq!(descriptor_at(&k, 4), None);
}

#[test]
fn an_open_file_is_closed_for_good_with_the_last_slot_that_names_it() {
    let mut k = files_boot();
    assert_eq!(sys_open(&mut k, NAME_A, O_CREATE | O_RDWR), 3);
    assert_eq!(sys_open(&mut k, NAME_A, O_RDONLY), 4);
    assert_eq!(k.files.len(), 4);
    assert_eq!(descriptor_at(&k, 3), Some(2));
    assert_eq!(descriptor_at(&k, 4), Some(3));
    assert_eq!(sys_fork(&mut k), 2);
    assert_eq!(sys_close(&mut k, 3), 0);
    assert!(k.files[2].is_some());
    assert!(k.is_referenced(2));
    sys_yield(&mut k);
    assert_eq!(k.current, Some(2));
    assert_eq!(handle_at(&k, 3).unwrap().inode, 0);
    assert_eq!(sys_close(&mut k, 3), 0);
    assert!(k.files[2].is_none());
    assert!(!k.is_referenced(2));
    assert_eq!(sys_close(&mut k, 3), -1);
    assert_eq!(sys_open(&mut k, NAME_B, O_CREATE), 3);
    assert_eq!(descriptor_at(&k, 3), Some(2));
    assert_eq!(handle_at(&k, 3).unwrap().inode, 1);
    assert_eq!(sys_open(&mut k, NAME_B, O_RDONLY), 5);
    assert_eq!(descriptor_at(&k, 5), Some(4));
    assert_eq!(k.files.len(), 5);
    assert_eq!(find_free_place(&k), 5);
}

#[test]
fn the_console_streams_stay_open() {
    let mut k = files_boot();
    assert_eq!(sys_close(&mut k, 0), 0);
    assert_eq!(sys_close(&mut k, 1), 0);
    assert_eq!(sys_close(&mut k, 2), 0);
    assert!(!k.is_referenced(0));
    assert!(!k.is_referenced(1));
    assert!(k.files[0].is_some() && k.files[1].is_some());
    assert_eq!(find_free_place(&k), 2);
    assert_eq!(sys_open(&mut k, NAME_A, O_CREATE), 0);
    assert_eq!(descriptor_at(&k, 0), Some(2));
    k.release(0);
    k.release(1);
    k.release(7);
    assert!(k.files[0].is_some() && k.files[1].is_some());
    k.release(2);
    assert!(k.files[2].is_some());
}

#[test]
fn collecting_a_child_closes_the_files_that_only_it_had_open() {
    let mut k = files_boot();
    assert_eq!(sys_open(&mut k, NAME_A, O_CREATE), 3);
    assert_eq!(sys_fork(&mut k), 2);
    sys_yield(&mut k);
    assert_eq!(k.current, Some(2));
    assert_eq!(sys_open(&mut k, NAME_B, O_CREATE), 4);
    assert_eq!(sys_open(&mut k, NAME_B, O_RDONLY), 5);
    assert_eq!(k.files.len(), 5);
    sys_exit(&mut k, 0);
    assert_eq!(k.current, Some(1));
    assert!(k.files[3].is_some() && k.files[4].is_some());
    assert_eq!(sys_waitpid(&mut k, 2, STAT), 2);
    assert!(k.files[0].is_some() && k.files[1].is_some() && k.files[2].is_some());
    assert!(k.files[3].is_none() && k.files[4].is_none());
    assert_eq!(k.files.len(), 5);
    assert_eq!(handle_at(&k, 3).unwrap().inode, 0);
    assert_eq!(sys_open(&mut k, NAME_B, O_RDONLY), 4);
    assert_eq!(descriptor_at(&k, 4), Some(3));
}

#[test]
fn a_spawned_child_shares_the_open_files_of_its_parent() {
    let mut k = files_boot();
    k.fs.create(&b"a-long-name".to_vec());
    assert_eq!(sys_open(&mut k, NAME_A, O_CREATE | O_RDWR), 3);
    put(&mut k, BUF, b"shared");
    assert_eq!(sys_write(&mut k, 3, BUF, 6), 6);
    assert_eq!(sys_close(&mut k, 2), 0);
    let image = ProgramImage {
        entry: 0x40000,
        segments: vec![Segment {
            start_va: 0x40000,
            mem_size: 0x1000,
            perm: MapPermission { r: true, w: true, x: true, u: false },
            data: b"child".to_vec(),
        }],
    };
    assert_eq!(sys_spawn(&mut k, NAME_LONG, Some(&image)), 2);
    assert_eq!(k.tasks[2].as_ref().unwrap().fd_table, vec![Some(0), Some(1), None, Some(2)]);
    assert_eq!(k.tasks[2].as_ref().unwrap().fd_table, k.tasks[1].as_ref().unwrap().fd_table);
    assert_eq!(k.files.len(), 3);
    sys_yield(&mut k);
    assert_eq!(k.current, Some(2));
    assert_eq!(handle_at(&k, 2), None);
    assert_eq!(handle_at(&k, 3).unwrap().inode, 1);
    assert_eq!(handle_at(&k, 3).unwrap().offset, 6);
    assert!(k.write_user(0x40100, &b"!".to_vec()));
    assert_eq!(sys_write(&mut k, 3, 0x40100, 1), 1);
    assert_eq!(k.fs.inodes[1].data, b"shared!".to_vec());
    assert_eq!(sys_write(&mut k, 1, 0x40000, 5), 5);
    assert_eq!(k.console.output, b"child".to_vec());
    assert_eq!(sys_close(&mut k, 3), 0);
    assert!(k.files[2].is_some());
    sys_yield(&mut k);
    assert_eq!(k.current, Some(1));
    assert_eq!(handle_at(&k, 3).unwrap().offset, 7);
    assert_eq!(sys_close(&mut k, 3), 0);
    assert!(k.files[2].is_none());
}
