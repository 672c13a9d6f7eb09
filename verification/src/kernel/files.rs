//! The open files: which descriptor slots name them, and when they are closed for good.

use vstd::prelude::*;
use crate::fs::{FileHandle, FileKind, FIRST_FILE};
use crate::kernel::{desc_ok, file_ok, Kernel, slot_files_ok};
use crate::task::TaskControlBlock;

verus! {

/// Descriptor slot `fd` of process `pid` names the open file `h`.
pub open spec fn holds(ts: Seq<Option<TaskControlBlock>>, pid: int, fd: int, h: int) -> bool {
    &&& 0 <= pid < ts.len()
    &&& ts[pid] is Some
    &&& 0 <= fd < ts[pid]->0.fd_table.len()
    &&& ts[pid]->0.fd_table[fd] == Some(h as usize)
    &&& 0 <= h <= usize::MAX
}

/// Some descriptor slot of some process names the open file `h`.
pub open spec fn referenced(ts: Seq<Option<TaskControlBlock>>, h: int) -> bool {
    exists|pid: int, fd: int| #[trigger] holds(ts, pid, fd, h)
}

/// Some slot of `table` names the open file `h`.
pub open spec fn names(table: Seq<Option<usize>>, h: int) -> bool {
    exists|fd: int| 0 <= fd < table.len() && (#[trigger] table[fd]) is Some && table[fd]->0 == h
}

/// The open files after the file `h` was let go: its place is empty if no
/// descriptor slot names it and it is no console stream.
pub open spec fn released(
    files: Seq<Option<FileHandle>>,
    ts: Seq<Option<TaskControlBlock>>,
    h: int,
) -> Seq<Option<FileHandle>> {
    if FIRST_FILE <= h < files.len() && !referenced(ts, h) {
        files.update(h, None)
    } else {
        files
    }
}

/// The open files after each file that the descriptor slots of `table`
/// name was let go, in the order of the slots.
pub open spec fn released_all(
    files: Seq<Option<FileHandle>>,
    ts: Seq<Option<TaskControlBlock>>,
    table: Seq<Option<usize>>,
) -> Seq<Option<FileHandle>>
    decreases table.len(),
{
    if table.len() == 0 {
        files
    } else if table.last() is Some {
        released(released_all(files, ts, table.drop_last()), ts, table.last()->0 as int)
    } else {
        released_all(files, ts, table.drop_last())
    }
}

/// The open files after the process whose descriptor slots were `table`
/// left the table `ts`: closed for good are the files that its slots named
/// and no slot of `ts` names, but for the console streams.
pub open spec fn without_files_of(
    files: Seq<Option<FileHandle>>,
    ts: Seq<Option<TaskControlBlock>>,
    table: Seq<Option<usize>>,
) -> Seq<Option<FileHandle>> {
    Seq::new(
        files.len(),
        |h: int|
            if FIRST_FILE <= h && names(table, h) && !referenced(ts, h) {
                None
            } else {
                files[h]
            },
    )
}

/// Process tables whose processes have the same descriptor slots name the same open files.
pub proof fn lemma_referenced_same_tables(
    a: Seq<Option<TaskControlBlock>>,
    b: Seq<Option<TaskControlBlock>>,
    h: int,
)
    requires
        a.len() == b.len(),
        forall|pid: int|
            0 <= pid < a.len() ==> ((#[trigger] a[pid]) is Some <==> b[pid] is Some) && (a[pid] is Some
                ==> a[pid]->0.fd_table@ == b[pid]->0.fd_table@),
    ensures
        referenced(a, h) == referenced(b, h),
{
    if referenced(a, h) {
        let (pid, fd) = choose|pid: int, fd: int| #[trigger] holds(a, pid, fd, h);
        assert(a[pid] is Some);
        assert(holds(b, pid, fd, h));
    }
    if referenced(b, h) {
        let (pid, fd) = choose|pid: int, fd: int| #[trigger] holds(b, pid, fd, h);
        assert(a[pid] is Some <==> b[pid] is Some);
        assert(holds(a, pid, fd, h));
    }
}

/// Letting go of the files of a descriptor table one by one closes those
/// that no slot names any more.
pub proof fn lemma_released_all(
    files: Seq<Option<FileHandle>>,
    ts: Seq<Option<TaskControlBlock>>,
    table: Seq<Option<usize>>,
)
    ensures
        released_all(files, ts, table) == without_files_of(files, ts, table),
    decreases table.len(),
{
    let want = without_files_of(files, ts, table);
    if table.len() == 0 {
        assert forall|h: int| 0 <= h < files.len() implies files[h] == want[h] by {
            assert(!names(table, h));
        }
        assert(files =~= want);
    } else {
        let init = table.drop_last();
        lemma_released_all(files, ts, init);
        let prev = without_files_of(files, ts, init);
        let got = released_all(files, ts, table);
        assert(got.len() == want.len());
        assert forall|h: int| 0 <= h < files.len() implies got[h] == want[h] by {
            if names(init, h) {
                let fd = choose|fd: int|
                    0 <= fd < init.len() && (#[trigger] init[fd]) is Some && init[fd]->0 == h;
                assert(table[fd] == init[fd]);
            }
            if names(table, h) && !names(init, h) {
                let fd = choose|fd: int|
                    0 <= fd < table.len() && (#[trigger] table[fd]) is Some && table[fd]->0 == h;
                if fd < init.len() {
                    assert(init[fd] == table[fd]);
                }
            }
            if table.last() is Some && table.last()->0 == h {
                assert(table[table.len() - 1] == table.last());
            }
        }
        assert(got =~= want);
    }
}

impl Kernel {
    /// `self` is `before` but for the descriptor table of the running
    /// process, the open files and the file system.
    pub open spec fn same_but_files(&self, before: Kernel) -> bool {
        let p = before.current->0 as int;
        &&& *self == (Kernel {
            tasks: self.tasks,
            fs: self.fs,
            files: self.files,
            ..before
        })
        &&& self.same_but_task(before, p)
        &&& self.has(p)
        &&& self.task(p).same_but_files(before.task(p))
    }

    /// Whether some descriptor slot of some process names the open file `h`.
    pub fn is_referenced(&self, h: usize) -> (r: bool)
        ensures
            r == referenced(self.tasks@, h as int),
    {
        let mut pid: usize = 0;
        while pid < self.tasks.len()
            invariant
                pid <= self.tasks.len(),
                forall|q: int, fd: int| 0 <= q < pid ==> !#[trigger] holds(self.tasks@, q, fd, h as int),
            decreases self.tasks.len() - pid,
        {
            match &self.tasks[pid] {
                Some(t) => {
                    let mut fd: usize = 0;
                    while fd < t.fd_table.len()
                        invariant
                            fd <= t.fd_table.len(),
                            pid < self.tasks.len(),
                            self.tasks[pid as int] == Some(*t),
                            forall|x: int|
                                0 <= x < fd ==> !#[trigger] holds(self.tasks@, pid as int, x, h as int),
                        decreases t.fd_table.len() - fd,
                    {
                        let named: bool = match t.fd_table[fd] {
                            Some(x) => x == h,
                            None => false,
                        };
                        if named {
                            assert(holds(self.tasks@, pid as int, fd as int, h as int));
                            return true;
                        }
                        fd = fd + 1;
                    }
                },
                None => {},
            }
            pid = pid + 1;
        }
        false
    }

    /// Closes the open file `h` for good, if no descriptor slot names it and
    /// it is no console stream.
    pub fn release(&mut self, h: usize)
        requires
            old(self).wf(),
        ensures
            final(self).wf(),
            *final(self) == (Kernel { files: final(self).files, ..*old(self) }),
            final(self).files@ == released(old(self).files@, old(self).tasks@, h as int),
    {
        let ghost before = *self;
        if h >= FIRST_FILE && h < self.files.len() && !self.is_referenced(h) {
            self.files[h] = None;
        }
        proof {
            lemma_file_released(before, *self, h as int);
        }
    }
}

/// A kernel stays sound when one open file changes, or a file is opened in
/// an empty place: a file of an inode that exists, not in the place of a
/// console stream.
pub proof fn lemma_file_changed(before: Kernel, after: Kernel, h: int, f: FileHandle)
    requires
        before.wf(),
        after.tasks@ == before.tasks@,
        after.ready@ == before.ready@,
        after.current == before.current,
        after.fs == before.fs,
        FIRST_FILE <= h < before.files.len(),
        after.files@ == before.files@.update(h, Some(f)),
        f.kind == FileKind::Regular,
        f.inode < before.fs.inodes.len(),
    ensures
        after.wf(),
{
    let ts = before.tasks@;
    let n = before.fs.inodes.len() as int;
    assert forall|x: int| #[trigger] file_ok(after.files@, x, n) by {
        assert(file_ok(before.files@, x, n));
    }
    assert forall|pid: int| #[trigger] slot_files_ok(ts, pid, after.files@) by {
        assert(slot_files_ok(ts, pid, before.files@));
        if 0 <= pid < ts.len() && ts[pid] is Some {
            let t = ts[pid]->0;
            assert forall|fd: int| 0 <= fd < t.fd_table.len() implies desc_ok(
                #[trigger] t.fd_table[fd],
                after.files@,
            ) by {
                assert(desc_ok(t.fd_table[fd], before.files@));
            }
        }
    }
}

/// A kernel stays sound when the open files get one more, empty place.
pub proof fn lemma_file_place_added(before: Kernel, after: Kernel)
    requires
        before.wf(),
        after.tasks@ == before.tasks@,
        after.ready@ == before.ready@,
        after.current == before.current,
        after.fs == before.fs,
        after.files@ == before.files@.push(None),
    ensures
        after.wf(),
{
    let ts = before.tasks@;
    let n = before.fs.inodes.len() as int;
    assert forall|x: int| #[trigger] file_ok(after.files@, x, n) by {
        assert(file_ok(before.files@, x, n));
    }
    assert forall|pid: int| #[trigger] slot_files_ok(ts, pid, after.files@) by {
        assert(slot_files_ok(ts, pid, before.files@));
        if 0 <= pid < ts.len() && ts[pid] is Some {
            let t = ts[pid]->0;
            assert forall|fd: int| 0 <= fd < t.fd_table.len() implies desc_ok(
                #[trigger] t.fd_table[fd],
                after.files@,
            ) by {
                assert(desc_ok(t.fd_table[fd], before.files@));
            }
        }
    }
}

/// A kernel stays sound when an open file that no descriptor slot names,
/// and that is no console stream, is closed for good.
pub proof fn lemma_file_released(before: Kernel, after: Kernel, h: int)
    requires
        before.wf(),
        after.tasks@ == before.tasks@,
        after.ready@ == before.ready@,
        after.current == before.current,
        after.fs == before.fs,
        after.files@ == released(before.files@, before.tasks@, h),
    ensures
        after.wf(),
{
    let ts = before.tasks@;
    let n = before.fs.inodes.len() as int;
    assert forall|x: int| #[trigger] file_ok(after.files@, x, n) by {
        assert(file_ok(before.files@, x, n));
    }
    assert forall|pid: int| #[trigger] slot_files_ok(ts, pid, after.files@) by {
        assert(slot_files_ok(ts, pid, before.files@));
        if 0 <= pid < ts.len() && ts[pid] is Some {
            let t = ts[pid]->0;
            assert forall|fd: int| 0 <= fd < t.fd_table.len() implies desc_ok(
                #[trigger] t.fd_table[fd],
                after.files@,
            ) by {
                assert(desc_ok(t.fd_table[fd], before.files@));
                if t.fd_table[fd] == Some(h as usize) && 0 <= h <= usize::MAX {
                    assert(holds(ts, pid, fd, h));
                }
            }
        }
    }
}

} // verus!
