//! The memory of the running process as the kernel reads and writes it.

use vstd::prelude::*;
use crate::kernel::{Kernel, lemma_task_changed, procs, slot_ok};
use crate::mm::{range_accessible, read_bytes_result, user_str, write_bytes_result};
use crate::tree::live;

verus! {

impl Kernel {
    /// `self` is `before` but for the address space of the running process.
    pub open spec fn same_but_memory(&self, before: Kernel) -> bool {
        let p = before.current->0 as int;
        &&& self.same_but_tasks(before)
        &&& self.same_but_task(before, p)
        &&& self.has(p)
        &&& self.task(p).same_but_memory(before.task(p))
    }

    /// Copies `data` into the memory of the running process at `va`, if the
    /// process may write every byte of the range; else changes nothing.
    pub fn write_user(&mut self, va: usize, data: &Vec<u8>) -> (r: bool)
        requires
            old(self).wf(),
            old(self).running(),
        ensures
            final(self).wf(),
            r == range_accessible(old(self).cur().memory_set@, va as int, data.len() as int, true),
            !r ==> *final(self) == *old(self),
            r ==> {
                &&& final(self).same_but_memory(*old(self))
                &&& final(self).cur().program_brk == old(self).cur().program_brk
                &&& final(self).cur().memory_set@ == write_bytes_result(
                    old(self).cur().memory_set@,
                    va as int,
                    data@,
                )
            },
    {
        let p: usize = self.current.unwrap();
        let ghost before = *self;
        proof {
            assert(live(procs(self.tasks@), p as int));
            assert(slot_ok(self.tasks@, p as int));
        }
        if !self.task_ref(p).memory_set.check_access(va, data.len(), true) {
            return false;
        }
        match &mut self.tasks[p] {
            Some(t) => {
                let _ = t.memory_set.write_bytes(va, data);
            },
            None => {},
        }
        proof {
            lemma_task_changed(before, *self, p as int);
        }
        true
    }

    /// The `len` bytes at `va` in the memory of the running process, if it may read them all.
    pub fn read_user(&self, va: usize, len: usize) -> (r: Option<Vec<u8>>)
        requires
            self.wf(),
            self.running(),
        ensures
            r is Some <==> range_accessible(self.cur().memory_set@, va as int, len as int, false),
            r matches Some(v) ==> v@ == read_bytes_result(
                self.cur().memory_set@,
                va as int,
                len as int,
            ),
    {
        let p: usize = self.current.unwrap();
        proof {
            assert(live(procs(self.tasks@), p as int));
            assert(slot_ok(self.tasks@, p as int));
        }
        self.task_ref(p).memory_set.read_bytes(va, len)
    }

    /// The string at `va` in the memory of the running process, without its
    /// terminating zero byte, if the process may read it all.
    pub fn read_user_str(&self, va: usize) -> (r: Option<Vec<u8>>)
        requires
            self.wf(),
            self.running(),
        ensures
            r is Some <==> user_str(self.cur().memory_set@, va as int) is Some,
            r matches Some(v) ==> v@ == user_str(self.cur().memory_set@, va as int)->0,
    {
        let p: usize = self.current.unwrap();
        proof {
            assert(live(procs(self.tasks@), p as int));
            assert(slot_ok(self.tasks@, p as int));
        }
        self.task_ref(p).memory_set.read_cstr(va)
    }

    /// The inode that the string at `path`, in the memory of the running
    /// process, names.
    pub open spec fn resolve_user_path(&self, path: int) -> Option<usize> {
        match user_str(self.cur().memory_set@, path) {
            Some(name) => self.fs.resolve(name),
            None => None,
        }
    }

    /// The inode that the string at `path`, in the memory of the running
    /// process, names.
    pub fn lookup_user_path(&self, path: usize) -> (r: Option<usize>)
        requires
            self.wf(),
            self.running(),
        ensures
            r == self.resolve_user_path(path as int),
            r matches Some(ino) ==> ino < self.fs.inodes.len(),
    {
        match self.read_user_str(path) {
            Some(name) => self.fs.find(&name),
            None => None,
        }
    }

    /// The bytes of the file that the string at `path`, in the memory of the
    /// running process, names: what a loader makes a program image of.
    pub fn program_bytes(&self, path: usize) -> (r: Option<Vec<u8>>)
        requires
            self.wf(),
            self.running(),
        ensures
            r is Some <==> self.resolve_user_path(path as int) is Some,
            r matches Some(v) ==> v@ == self.fs.inodes[self.resolve_user_path(
                path as int,
            )->0 as int].data@,
    {
        match self.lookup_user_path(path) {
            Some(ino) => Some(crate::codec::bytes_copy(&self.fs.inodes[ino].data)),
            None => None,
        }
    }
}

} // verus!
