//! System calls on files.

use vstd::prelude::*;
use crate::fs::{
    dir_lookup, FileHandle, FileKind, FIRST_FILE, flags_create, flags_trunc, flags_valid,
    link_outcome, opened, read_at_result, Stat, STAT_MODE_FILE, stat_of, STAT_SIZE, unlink_outcome,
    write_at_result,
};
use crate::kernel::{
    desc_ok, file_ok, Kernel, lemma_fs_changed, lemma_task_changed, procs, slot_files_ok, slot_ok,
    task_files_ok,
};
use crate::kernel::files::{lemma_file_changed, lemma_file_place_added, released};
use crate::mm::{
    page_accessible, PageMap, range_accessible, read_bytes_result, user_str, vpn_ceil, vpn_floor,
    write_bytes_result,
};
use crate::task::{close_outcome, first_free};
use crate::tree::live;

verus! {

/// The place, among the open files, of the file that slot `fd` of the
/// running process names.
pub open spec fn desc_at(kernel: Kernel, fd: int) -> Option<usize> {
    if 0 <= fd < kernel.cur().fd_table.len() {
        kernel.cur().fd_table[fd]
    } else {
        None
    }
}

/// The open file that slot `fd` of the running process names.
pub open spec fn file_at(kernel: Kernel, fd: int) -> Option<FileHandle> {
    match desc_at(kernel, fd) {
        Some(h) => kernel.files[h as int],
        None => None,
    }
}

/// The place, among the open files, of the file that slot `fd` of the
/// running process names.
pub fn descriptor_at(kernel: &Kernel, fd: usize) -> (r: Option<usize>)
    requires
        kernel.wf(),
        kernel.running(),
    ensures
        r == desc_at(*kernel, fd as int),
        r matches Some(h) ==> h < kernel.files.len() && kernel.files[h as int] is Some,
        r is Some <==> file_at(*kernel, fd as int) is Some,
{
    let p: usize = kernel.current.unwrap();
    proof {
        assert(live(procs(kernel.tasks@), p as int));
        assert(slot_files_ok(kernel.tasks@, p as int, kernel.files@));
    }
    let task = kernel.task_ref(p);
    if fd >= task.fd_table.len() {
        return None;
    }
    proof {
        assert(desc_ok(task.fd_table[fd as int], kernel.files@));
    }
    task.fd_table[fd]
}

/// The open file that slot `fd` of the running process names.
pub fn handle_at(kernel: &Kernel, fd: usize) -> (r: Option<FileHandle>)
    requires
        kernel.wf(),
        kernel.running(),
    ensures
        r == file_at(*kernel, fd as int),
        r matches Some(f) ==> f.kind == FileKind::Regular ==> f.inode < kernel.fs.inodes.len()
            && desc_at(*kernel, fd as int)->0 >= FIRST_FILE,
{
    match descriptor_at(kernel, fd) {
        Some(h) => {
            proof {
                assert(file_ok(kernel.files@, h as int, kernel.fs.inodes.len() as int));
            }
            kernel.files[h]
        },
        None => None,
    }
}

/// A range that the user may access holds every shorter range from the same start.
pub proof fn lemma_access_shorter(m: PageMap, va: int, len: int, n: int, write: bool)
    requires
        range_accessible(m, va, len, write),
        0 <= n <= len,
        0 <= va,
    ensures
        range_accessible(m, va, n, write),
{
    assert forall|vpn: int| vpn_floor(va) <= vpn < vpn_ceil(va + n) implies #[trigger] page_accessible(
        m,
        vpn,
        write,
    ) by {
        assert(vpn_ceil(va + n) <= vpn_ceil(va + len));
    }
}

/// Whether a write of `len` bytes from `buf` to slot `fd` can be done: the
/// slot holds a handle that allows writing, to the console's output or to
/// an inode; the count fits the result; the process may read the bytes;
/// and the write ends within the largest file.
pub open spec fn write_ok(kernel: Kernel, fd: int, buf: int, len: int) -> bool {
    &&& file_at(kernel, fd) matches Some(h)
    &&& h.writable
    &&& h.kind != FileKind::Stdin
    &&& len <= isize::MAX
    &&& range_accessible(kernel.cur().memory_set@, buf, len, false)
    &&& h.kind == FileKind::Regular ==> h.offset + len <= usize::MAX
}

/// Writes the `len` bytes at `buf` to the file that slot `fd` names: to the
/// end of the console's output, or into the inode where the open file
/// stands, which then stands behind them, for every slot that names it.
/// The result is `len`; -1, and nothing changed, if the write cannot be done.
pub fn sys_write(kernel: &mut Kernel, fd: usize, buf: usize, len: usize) -> (r: isize)
    requires
        old(kernel).wf(),
        old(kernel).running(),
    ensures
        final(kernel).wf(),
        r == if write_ok(*old(kernel), fd as int, buf as int, len as int) {
            len as int
        } else {
            -1
        },
        !write_ok(*old(kernel), fd as int, buf as int, len as int) ==> *final(kernel) == *old(
            kernel,
        ),
        write_ok(*old(kernel), fd as int, buf as int, len as int) ==> {
            let h = desc_at(*old(kernel), fd as int)->0 as int;
            let f = file_at(*old(kernel), fd as int)->0;
            let data = read_bytes_result(old(kernel).cur().memory_set@, buf as int, len as int);
            &&& if f.kind == FileKind::Stdout {
                &&& *final(kernel) == (Kernel { console: final(kernel).console, ..*old(kernel) })
                &&& final(kernel).console.input == old(kernel).console.input
                &&& final(kernel).console.output@ == old(kernel).console.output@ + data
            } else {
                &&& *final(kernel) == (Kernel {
                    fs: final(kernel).fs,
                    files: final(kernel).files,
                    ..*old(kernel)
                })
                &&& final(kernel).files@ == old(kernel).files@.update(
                    h,
                    Some(FileHandle { offset: (f.offset + len) as usize, ..f }),
                )
                &&& final(kernel).fs.dir == old(kernel).fs.dir
                &&& final(kernel).fs.inodes.len() == old(kernel).fs.inodes.len()
                &&& final(kernel).fs.inodes[f.inode as int].nlink == old(kernel).fs.inodes[f.inode as int].nlink
                &&& final(kernel).fs.inodes[f.inode as int].data@ == write_at_result(
                    old(kernel).fs.inodes[f.inode as int].data@,
                    f.offset as int,
                    data,
                )
                &&& forall|i: int|
                    0 <= i < old(kernel).fs.inodes.len() && i != f.inode ==> #[trigger] final(kernel).fs.inodes[i]
                        == old(kernel).fs.inodes[i]
            }
        },
{
    let h: usize = match descriptor_at(kernel, fd) {
        Some(h) => h,
        None => {
            return -1;
        },
    };
    let f = match handle_at(kernel, fd) {
        Some(f) => f,
        None => {
            return -1;
        },
    };
    if !f.writable || len > isize::MAX as usize {
        return -1;
    }
    if matches!(f.kind, FileKind::Stdin) {
        return -1;
    }
    if matches!(f.kind, FileKind::Regular) && len > usize::MAX - f.offset {
        return -1;
    }
    let data = match kernel.read_user(buf, len) {
        Some(d) => d,
        None => {
            return -1;
        },
    };
    let ghost before = *kernel;
    match f.kind {
        FileKind::Regular => {
            kernel.fs.write_at(f.inode, f.offset, &data);
            let ghost mid = *kernel;
            proof {
                lemma_fs_changed(before, mid);
            }
            let moved = FileHandle {
                kind: f.kind,
                inode: f.inode,
                readable: f.readable,
                writable: f.writable,
                offset: f.offset + len,
            };
            kernel.files[h] = Some(moved);
            proof {
                lemma_file_changed(mid, *kernel, h as int, moved);
            }
        },
        _ => {
            let mut i: usize = 0;
            while i < data.len()
                invariant
                    i <= data.len(),
                    kernel.console.output@ == before.console.output@ + data@.take(i as int),
                    kernel.console.input == before.console.input,
                    kernel.tasks == before.tasks,
                    kernel.ready == before.ready,
                    kernel.current == before.current,
                    kernel.fs == before.fs,
                    kernel.files == before.files,
                    kernel.clock_us == before.clock_us,
                decreases data.len() - i,
            {
                kernel.console.output.push(data[i]);
                i = i + 1;
                assert(kernel.console.output@ =~= before.console.output@ + data@.take(i as int));
            }
            assert(data@.take(i as int) =~= data@);
        },
    }
    len as isize
}

/// Whether a read of up to `len` bytes to `buf` from slot `fd` can be
/// done: the slot holds a handle that allows reading, from the console's
/// input or from an inode; the count fits the result; and the process may
/// write the `len` bytes at `buf`.
pub open spec fn read_ok(kernel: Kernel, fd: int, buf: int, len: int) -> bool {
    &&& file_at(kernel, fd) matches Some(h)
    &&& h.readable
    &&& h.kind != FileKind::Stdout
    &&& len <= isize::MAX
    &&& range_accessible(kernel.cur().memory_set@, buf, len, true)
}

/// The bytes that a read of up to `len` bytes through the handle `h` finds:
/// those that wait in the console's input, or those of the inode where the
/// handle stands.
pub open spec fn read_data(kernel: Kernel, h: FileHandle, len: int) -> Seq<u8> {
    if h.kind == FileKind::Stdin {
        read_at_result(kernel.console.input@, 0, len)
    } else {
        read_at_result(kernel.fs.inodes[h.inode as int].data@, h.offset as int, len)
    }
}

/// Reads up to `len` bytes from the file that slot `fd` names to `buf`: as
/// many as wait in the console's input, which then holds the rest, or as
/// many as the inode has where the open file stands, which then stands
/// behind them, for every slot that names it. The result is their number;
/// -1, and nothing changed, if the read cannot be done.
pub fn sys_read(kernel: &mut Kernel, fd: usize, buf: usize, len: usize) -> (r: isize)
    requires
        old(kernel).wf(),
        old(kernel).running(),
    ensures
        final(kernel).wf(),
        r == if read_ok(*old(kernel), fd as int, buf as int, len as int) {
            read_data(*old(kernel), file_at(*old(kernel), fd as int)->0, len as int).len() as int
        } else {
            -1
        },
        !read_ok(*old(kernel), fd as int, buf as int, len as int) ==> *final(kernel) == *old(
            kernel,
        ),
        read_ok(*old(kernel), fd as int, buf as int, len as int) ==> {
            let h = desc_at(*old(kernel), fd as int)->0 as int;
            let f = file_at(*old(kernel), fd as int)->0;
            let data = read_data(*old(kernel), f, len as int);
            let p = old(kernel).current->0 as int;
            &&& *final(kernel) == (Kernel {
                tasks: final(kernel).tasks,
                files: final(kernel).files,
                console: final(kernel).console,
                ..*old(kernel)
            })
            &&& final(kernel).same_but_task(*old(kernel), p)
            &&& final(kernel).has(p)
            &&& final(kernel).console.output == old(kernel).console.output
            &&& final(kernel).cur().memory_set@ == write_bytes_result(
                old(kernel).cur().memory_set@,
                buf as int,
                data,
            )
            &&& final(kernel).cur().program_brk == old(kernel).cur().program_brk
            &&& final(kernel).cur().same_but_memory(old(kernel).cur())
            &&& if f.kind == FileKind::Stdin {
                &&& final(kernel).console.input@ == old(kernel).console.input@.subrange(
                    data.len() as int,
                    old(kernel).console.input@.len() as int,
                )
                &&& final(kernel).files == old(kernel).files
            } else {
                &&& final(kernel).console.input == old(kernel).console.input
                &&& final(kernel).files@ == old(kernel).files@.update(
                    h,
                    Some(FileHandle { offset: (f.offset + data.len()) as usize, ..f }),
                )
            }
        },
{
    let h: usize = match descriptor_at(kernel, fd) {
        Some(h) => h,
        None => {
            return -1;
        },
    };
    let f = match handle_at(kernel, fd) {
        Some(f) => f,
        None => {
            return -1;
        },
    };
    if !f.readable || len > isize::MAX as usize {
        return -1;
    }
    if matches!(f.kind, FileKind::Stdout) {
        return -1;
    }
    let p: usize = kernel.current.unwrap();
    proof {
        assert(live(procs(kernel.tasks@), p as int));
        assert(slot_ok(kernel.tasks@, p as int));
    }
    if !kernel.task_ref(p).memory_set.check_access(buf, len, true) {
        return -1;
    }
    let ghost before = *kernel;
    match f.kind {
        FileKind::Regular => {
            let data = kernel.fs.read_at(f.inode, f.offset, len);
            proof {
                let size = kernel.fs.inodes[f.inode as int].data.len();
                assert(size == kernel.fs.inodes[f.inode as int].data@.len());
                assert(f.offset + data.len() <= usize::MAX);
                lemma_access_shorter(
                    kernel.cur().memory_set@,
                    buf as int,
                    len as int,
                    data.len() as int,
                    true,
                );
            }
            let ok = kernel.write_user(buf, &data);
            assert(ok);
            let ghost mid = *kernel;
            let moved = FileHandle {
                kind: f.kind,
                inode: f.inode,
                readable: f.readable,
                writable: f.writable,
                offset: f.offset + data.len(),
            };
            kernel.files[h] = Some(moved);
            proof {
                lemma_file_changed(mid, *kernel, h as int, moved);
            }
            data.len() as isize
        },
        _ => {
            let avail: usize = kernel.console.input.len();
            let n: usize = if len < avail {
                len
            } else {
                avail
            };
            let mut rest: Vec<u8> = kernel.console.input.split_off(n);
            core::mem::swap(&mut kernel.console.input, &mut rest);
            let data = rest;
            proof {
                assert(data@ =~= read_at_result(before.console.input@, 0, len as int));
                lemma_fs_changed(before, *kernel);
                lemma_access_shorter(
                    kernel.cur().memory_set@,
                    buf as int,
                    len as int,
                    data.len() as int,
                    true,
                );
            }
            let ok = kernel.write_user(buf, &data);
            assert(ok);
            n as isize
        },
    }
}

/// The first empty place among the open files at or after `from`, or their number.
pub open spec fn first_closed(files: Seq<Option<FileHandle>>, from: int) -> int
    decreases files.len() - from,
{
    if from < 0 || from >= files.len() {
        files.len() as int
    } else if files[from] is None {
        from
    } else {
        first_closed(files, from + 1)
    }
}

/// The place that the next open file gets: the lowest empty one past the console streams.
pub open spec fn free_place(files: Seq<Option<FileHandle>>) -> int {
    first_closed(files, FIRST_FILE as int)
}

/// The place that the next open file gets.
pub fn find_free_place(kernel: &Kernel) -> (h: usize)
    requires
        kernel.wf(),
    ensures
        h == free_place(kernel.files@),
        FIRST_FILE <= h <= kernel.files.len(),
        h < kernel.files.len() ==> kernel.files[h as int] is None,
{
    let mut i: usize = FIRST_FILE;
    while i < kernel.files.len()
        invariant
            FIRST_FILE <= i <= kernel.files.len(),
            free_place(kernel.files@) == first_closed(kernel.files@, i as int),
        decreases kernel.files.len() - i,
    {
        if kernel.files[i].is_none() {
            return i;
        }
        i = i + 1;
    }
    i
}

/// Whether an open of the file that the string at `path` names can be
/// done: the process may read the string; `flags` holds no unknown bit;
/// the number of the slot fits the result; and the directory has the name,
/// or `flags` asks for creation.
pub open spec fn open_ok(kernel: Kernel, path: int, flags: u32) -> bool {
    &&& user_str(kernel.cur().memory_set@, path) is Some
    &&& flags_valid(flags)
    &&& first_free(kernel.cur().fd_table@, 0) <= isize::MAX
    &&& flags_create(flags) || kernel.resolve_user_path(path) is Some
}

/// Opens the file that the string at `path` names, with the access that
/// `flags` name: a new open file, in the lowest empty place past the
/// console streams, that stands at the start of the inode and that the
/// lowest empty slot of the running process names. With `O_CREATE` a new
/// name gets a new, empty inode and an old one has its inode emptied; with
/// `O_TRUNC` an old one has its inode emptied. The result is the number of
/// the slot; -1, and nothing changed, if the open cannot be done.
pub fn sys_open(kernel: &mut Kernel, path: usize, flags: u32) -> (r: isize)
    requires
        old(kernel).wf(),
        old(kernel).running(),
    ensures
        final(kernel).wf(),
        r == if open_ok(*old(kernel), path as int, flags) {
            first_free(old(kernel).cur().fd_table@, 0)
        } else {
            -1int
        },
        !open_ok(*old(kernel), path as int, flags) ==> *final(kernel) == *old(kernel),
        open_ok(*old(kernel), path as int, flags) ==> {
            let name = user_str(old(kernel).cur().memory_set@, path as int)->0;
            let found = old(kernel).resolve_user_path(path as int);
            let ino = if found is Some {
                found->0
            } else {
                old(kernel).fs.inodes.len()
            };
            let table = old(kernel).cur().fd_table@;
            let files = old(kernel).files@;
            let h = free_place(files);
            &&& final(kernel).same_but_files(*old(kernel))
            &&& final(kernel).cur().fd_table@ == (if r < table.len() {
                table
            } else {
                table.push(None)
            }).update(r as int, Some(h as usize))
            &&& final(kernel).files@ == (if h < files.len() {
                files
            } else {
                files.push(None)
            }).update(h, Some(opened(ino, flags)))
            &&& final(kernel).fs.inodes.len() == if found is Some {
                old(kernel).fs.inodes.len() as int
            } else {
                old(kernel).fs.inodes.len() + 1
            }
            &&& forall|i: int|
                0 <= i < old(kernel).fs.inodes.len() && i != ino ==> #[trigger] final(kernel).fs.inodes[i]
                    == old(kernel).fs.inodes[i]
            &&& found is Some ==> {
                &&& final(kernel).fs.dir@ == old(kernel).fs.dir@
                &&& final(kernel).fs.inodes[ino as int].nlink == old(kernel).fs.inodes[ino as int].nlink
                &&& final(kernel).fs.inodes[ino as int].data@ == if flags_create(flags)
                    || flags_trunc(flags) {
                    Seq::<u8>::empty()
                } else {
                    old(kernel).fs.inodes[ino as int].data@
                }
            }
            &&& found is None ==> {
                &&& final(kernel).fs.dir@ == old(kernel).fs.dir@.push(final(kernel).fs.dir@.last())
                &&& final(kernel).fs.dir@.last().name@ == name
                &&& final(kernel).fs.dir@.last().inode == ino
                &&& final(kernel).fs.inodes[ino as int].nlink == 1
                &&& final(kernel).fs.inodes[ino as int].data@ == Seq::<u8>::empty()
            }
        },
{
    let name = match kernel.read_user_str(path) {
        Some(n) => n,
        None => {
            return -1;
        },
    };
    if flags % 512 >= 4 || flags / 2048 != 0 {
        return -1;
    }
    let p: usize = kernel.current.unwrap();
    proof {
        assert(live(procs(kernel.tasks@), p as int));
        assert(slot_ok(kernel.tasks@, p as int));
    }
    let fd: usize = kernel.task_ref(p).lowest_free_fd();
    if fd > isize::MAX as usize {
        return -1;
    }
    let create: bool = flags / 512 % 2 == 1;
    let trunc: bool = flags / 1024 % 2 == 1;
    let found = kernel.fs.find(&name);
    if found.is_none() && !create {
        return -1;
    }
    let h: usize = find_free_place(kernel);
    let ghost before = *kernel;
    let ino: usize = match found {
        Some(ino) => {
            if create || trunc {
                kernel.fs.clear(ino);
                assert(kernel.fs.dir@ == before.fs.dir@);
                assert(kernel.fs.inodes[ino as int].data@ =~= Seq::<u8>::empty());
            }
            ino
        },
        None => {
            let ino = kernel.fs.create(&name);
            assert(kernel.fs.inodes[ino as int].data@ =~= Seq::<u8>::empty());
            ino
        },
    };
    proof {
        lemma_fs_changed(before, *kernel);
    }
    let ghost with_fs = *kernel;
    if h == kernel.files.len() {
        kernel.files.push(None);
        proof {
            lemma_file_place_added(with_fs, *kernel);
        }
    }
    let ghost with_place = *kernel;
    let handle = FileHandle {
        kind: FileKind::Regular,
        inode: ino,
        readable: flags % 2 == 0,
        writable: flags != 0,
        offset: 0,
    };
    kernel.files[h] = Some(handle);
    proof {
        lemma_file_changed(with_place, *kernel, h as int, handle);
    }
    let ghost mid = *kernel;
    proof {
        assert(slot_files_ok(mid.tasks@, p as int, mid.files@));
        assert(slot_ok(mid.tasks@, p as int));
    }
    match &mut kernel.tasks[p] {
        Some(t) => {
            let slot: usize = t.alloc_fd();
            t.fd_table[slot] = Some(h);
        },
        None => {},
    }
    proof {
        let t2 = kernel.task(p as int);
        let files = kernel.files@;
        assert(task_files_ok(t2, files)) by {
            assert forall|i: int| 0 <= i < t2.fd_table.len() implies desc_ok(
                #[trigger] t2.fd_table[i],
                files,
            ) by {
                if i != fd && i < mid.task(p as int).fd_table.len() {
                    assert(desc_ok(mid.task(p as int).fd_table[i], files));
                }
            }
        }
        lemma_task_changed(mid, *kernel, p as int);
    }
    fd as isize
}

/// Closes slot `fd` of the running process. The other slots keep their
/// numbers. The open file that the slot named is closed for good if no
/// other slot names it and it is no console stream. The result is 0; -1,
/// and nothing changed, if the slot is out of range or empty.
pub fn sys_close(kernel: &mut Kernel, fd: usize) -> (r: isize)
    requires
        old(kernel).wf(),
        old(kernel).running(),
    ensures
        final(kernel).wf(),
        r == if close_outcome(old(kernel).cur().fd_table@, fd as int) is Ok {
            0int
        } else {
            -1
        },
        r == -1 ==> *final(kernel) == *old(kernel),
        r == 0 ==> {
            &&& final(kernel).same_but_files(*old(kernel))
            &&& final(kernel).fs == old(kernel).fs
            &&& final(kernel).cur().fd_table@ == old(kernel).cur().fd_table@.update(fd as int, None)
            &&& final(kernel).files@ == released(
                old(kernel).files@,
                final(kernel).tasks@,
                desc_at(*old(kernel), fd as int)->0 as int,
            )
        },
{
    let h: usize = match descriptor_at(kernel, fd) {
        Some(h) => h,
        None => {
            return -1;
        },
    };
    let p: usize = kernel.current.unwrap();
    let ghost before = *kernel;
    proof {
        assert(live(procs(kernel.tasks@), p as int));
        assert(slot_ok(kernel.tasks@, p as int));
        assert(slot_files_ok(before.tasks@, p as int, before.files@));
    }
    match &mut kernel.tasks[p] {
        Some(t) => {
            let _ = t.close_fd(fd);
        },
        None => {},
    }
    proof {
        let t2 = kernel.task(p as int);
        let files = kernel.files@;
        assert(task_files_ok(t2, files)) by {
            assert forall|i: int| 0 <= i < t2.fd_table.len() implies desc_ok(
                #[trigger] t2.fd_table[i],
                files,
            ) by {
                if i != fd {
                    assert(desc_ok(before.task(p as int).fd_table[i], files));
                }
            }
        }
        lemma_task_changed(before, *kernel, p as int);
    }
    kernel.release(h);
    0
}

/// The link count of the inode behind handle `h`; zero for a console stream.
pub open spec fn links_of(kernel: Kernel, h: FileHandle) -> usize {
    if h.kind == FileKind::Regular {
        kernel.fs.inodes[h.inode as int].nlink
    } else {
        0
    }
}

/// Writes what is known of the file that slot `fd` names to the eighty bytes at
/// `st`: device 0, the inode's number, the mode of an ordinary file, and
/// the number of names that the inode has in the directory. A console
/// stream has no inode: its record holds 0 for the number and for the
/// count, and the mode of an ordinary file like every other. The result is
/// 0; -1, and nothing changed, if the slot is out of range or empty, or the
/// process may not write at `st`.
pub fn sys_fstat(kernel: &mut Kernel, fd: usize, st: usize) -> (r: isize)
    requires
        old(kernel).wf(),
        old(kernel).running(),
    ensures
        final(kernel).wf(),
        r == if file_at(*old(kernel), fd as int) is Some && range_accessible(
            old(kernel).cur().memory_set@,
            st as int,
            STAT_SIZE as int,
            true,
        ) {
            0int
        } else {
            -1
        },
        r == -1 ==> *final(kernel) == *old(kernel),
        r == 0 ==> {
            let h = file_at(*old(kernel), fd as int)->0;
            &&& final(kernel).same_but_memory(*old(kernel))
            &&& final(kernel).cur().program_brk == old(kernel).cur().program_brk
            &&& final(kernel).cur().memory_set@ == write_bytes_result(
                old(kernel).cur().memory_set@,
                st as int,
                stat_of(h, links_of(*old(kernel), h)).encoding(),
            )
        },
{
    let h = match handle_at(kernel, fd) {
        Some(h) => h,
        None => {
            return -1;
        },
    };
    let stat = match h.kind {
        FileKind::Regular => {
            let n: usize = kernel.fs.inodes[h.inode].nlink;
            Stat {
                dev: 0,
                ino: h.inode as u64,
                mode: STAT_MODE_FILE,
                nlink: if n > u32::MAX as usize {
                    u32::MAX
                } else {
                    n as u32
                },
            }
        },
        _ => Stat { dev: 0, ino: 0, mode: STAT_MODE_FILE, nlink: 0 },
    };
    let bytes = stat.encode();
    if kernel.write_user(st, &bytes) {
        0
    } else {
        -1
    }
}

/// What `sys_linkat` answers: 0 if the process may read both strings, they
/// differ, and the directory has the old name; else -1.
pub open spec fn linkat_result(kernel: Kernel, old_name: int, new_name: int) -> int {
    let a = user_str(kernel.cur().memory_set@, old_name);
    let b = user_str(kernel.cur().memory_set@, new_name);
    if a is Some && b is Some && link_outcome(kernel.fs.dir@, a->0, b->0) is Ok {
        0
    } else {
        -1
    }
}

/// Gives the inode that the string at `old_name` names one more name, the
/// string at `new_name`: a new directory entry, last in the directory, and
/// one more link in the inode's count. The result is 0; -1, and nothing
/// changed, if the process may not read a string, the two are the same, or
/// the directory lacks the old name.
pub fn sys_linkat(kernel: &mut Kernel, old_name: usize, new_name: usize) -> (r: isize)
    requires
        old(kernel).wf(),
        old(kernel).running(),
    ensures
        final(kernel).wf(),
        r == linkat_result(*old(kernel), old_name as int, new_name as int),
        r == -1 ==> final(kernel).same_as(*old(kernel)),
        r == 0 ==> {
            let a = user_str(old(kernel).cur().memory_set@, old_name as int)->0;
            let b = user_str(old(kernel).cur().memory_set@, new_name as int)->0;
            let ino = old(kernel).fs.resolve(a)->0;
            &&& *final(kernel) == (Kernel { fs: final(kernel).fs, ..*old(kernel) })
            &&& final(kernel).fs.dir@ == old(kernel).fs.dir@.push(final(kernel).fs.dir@.last())
            &&& final(kernel).fs.dir@.last().name@ == b
            &&& final(kernel).fs.dir@.last().inode == ino
            &&& final(kernel).fs.inodes.len() == old(kernel).fs.inodes.len()
            &&& final(kernel).fs.inodes[ino as int].nlink == old(kernel).fs.inodes[ino as int].nlink
                + 1
            &&& final(kernel).fs.inodes[ino as int].data == old(kernel).fs.inodes[ino as int].data
            &&& forall|k: int|
                0 <= k < old(kernel).fs.inodes.len() && k != ino ==> #[trigger] final(kernel).fs.inodes[k]
                    == old(kernel).fs.inodes[k]
        },
{
    let a = match kernel.read_user_str(old_name) {
        Some(n) => n,
        None => {
            return -1;
        },
    };
    let b = match kernel.read_user_str(new_name) {
        Some(n) => n,
        None => {
            return -1;
        },
    };
    let ghost before = *kernel;
    let res = kernel.fs.link(&a, &b);
    proof {
        lemma_fs_changed(before, *kernel);
    }
    match res {
        Ok(_) => 0,
        Err(e) => e.code(),
    }
}

/// What `sys_unlinkat` answers: 0 if the process may read the string and
/// the directory has the name; else -1.
pub open spec fn unlinkat_result(kernel: Kernel, name: int) -> int {
    let a = user_str(kernel.cur().memory_set@, name);
    if a is Some && unlink_outcome(kernel.fs.dir@, a->0) is Ok {
        0
    } else {
        -1
    }
}

/// Takes the name that the string at `name` holds out of the directory:
/// its first entry of that name goes, and the inode's count loses one link.
/// The result is 0; -1, and nothing changed, if the process may not read
/// the string or the directory lacks the name.
pub fn sys_unlinkat(kernel: &mut Kernel, name: usize) -> (r: isize)
    requires
        old(kernel).wf(),
        old(kernel).running(),
    ensures
        final(kernel).wf(),
        r == unlinkat_result(*old(kernel), name as int),
        r == -1 ==> final(kernel).same_as(*old(kernel)),
        r == 0 ==> {
            let a = user_str(old(kernel).cur().memory_set@, name as int)->0;
            let i = dir_lookup(old(kernel).fs.dir@, a);
            let ino = old(kernel).fs.dir[i].inode;
            &&& *final(kernel) == (Kernel { fs: final(kernel).fs, ..*old(kernel) })
            &&& final(kernel).fs.dir@ == old(kernel).fs.dir@.remove(i)
            &&& final(kernel).fs.inodes.len() == old(kernel).fs.inodes.len()
            &&& final(kernel).fs.inodes[ino as int].nlink == old(kernel).fs.inodes[ino as int].nlink
                - 1
            &&& final(kernel).fs.inodes[ino as int].data == old(kernel).fs.inodes[ino as int].data
            &&& forall|k: int|
                0 <= k < old(kernel).fs.inodes.len() && k != ino ==> #[trigger] final(kernel).fs.inodes[k]
                    == old(kernel).fs.inodes[k]
        },
{
    let a = match kernel.read_user_str(name) {
        Some(n) => n,
        None => {
            return -1;
        },
    };
    let ghost before = *kernel;
    let res = kernel.fs.unlink(&a);
    proof {
        lemma_fs_changed(before, *kernel);
    }
    match res {
        Ok(_) => 0,
        Err(e) => e.code(),
    }
}

} // verus!
