//! The file boundary: a flat directory of names, inodes with their link
//! counts and bytes, the console, and the handles that descriptor slots hold.

use vstd::prelude::*;
use crate::codec::{
    bytes_copy, bytes_eq, push_u32_le, push_u64_le, push_zeros, u32_le, u64_le, zeros,
};
use crate::error::KernelError;

verus! {

/// Open for reading only.
pub const O_RDONLY: u32 = 0;

/// Open for writing only.
pub const O_WRONLY: u32 = 1;

/// Open for reading and writing.
pub const O_RDWR: u32 = 2;

/// Create the file if the name is new, empty it if not.
pub const O_CREATE: u32 = 512;

/// Empty the file on opening.
pub const O_TRUNC: u32 = 1024;

/// The mode word of an ordinary file.
pub const STAT_MODE_FILE: u32 = 0o100000;

/// Bytes of an encoded `Stat`.
pub const STAT_SIZE: usize = 80;

/// One directory entry: a name and the inode it refers to.
pub struct DirEntry {
    pub name: Vec<u8>,
    pub inode: usize,
}

/// One inode: the number of directory entries that refer to it, and its bytes.
pub struct Inode {
    pub nlink: usize,
    pub data: Vec<u8>,
}

/// The number of entries of `dir` that refer to inode `ino`.
pub open spec fn link_count(dir: Seq<DirEntry>, ino: int) -> nat
    decreases dir.len(),
{
    if dir.len() == 0 {
        0
    } else {
        link_count(dir.drop_last(), ino) + if dir.last().inode == ino {
            1nat
        } else {
            0nat
        }
    }
}

/// The index of the first entry of `dir` at or after `from` whose name is `name`, or -1.
pub open spec fn dir_find(dir: Seq<DirEntry>, name: Seq<u8>, from: int) -> int
    decreases dir.len() - from,
{
    if from < 0 || from >= dir.len() {
        -1
    } else if dir[from].name@ == name {
        from
    } else {
        dir_find(dir, name, from + 1)
    }
}

/// The index of the first entry of `dir` whose name is `name`, or -1.
pub open spec fn dir_lookup(dir: Seq<DirEntry>, name: Seq<u8>) -> int {
    dir_find(dir, name, 0)
}

/// What `dir_find` finds is an entry of that name, at or after `from`.
pub proof fn lemma_dir_find_range(dir: Seq<DirEntry>, name: Seq<u8>, from: int)
    requires
        0 <= from,
    ensures
        dir_find(dir, name, from) == -1 || (from <= dir_find(dir, name, from) < dir.len()
            && dir[dir_find(dir, name, from)].name@ == name),
    decreases dir.len() - from,
{
    if from < dir.len() && dir[from].name@ != name {
        lemma_dir_find_range(dir, name, from + 1);
    }
}

/// A search from `from` on finds nothing before `to` if no entry in between has the name.
proof fn lemma_dir_find_skip(dir: Seq<DirEntry>, name: Seq<u8>, from: int, to: int)
    requires
        0 <= from <= to <= dir.len(),
        forall|k: int| from <= k < to ==> (#[trigger] dir[k]).name@ != name,
    ensures
        dir_find(dir, name, from) == dir_find(dir, name, to),
    decreases to - from,
{
    if from < to {
        lemma_dir_find_skip(dir, name, from + 1, to);
    }
}

/// No entry before the one that a lookup finds has the name, and none at all if it finds nothing.
pub proof fn lemma_dir_lookup_first(dir: Seq<DirEntry>, name: Seq<u8>, from: int, k: int)
    requires
        0 <= from <= k < dir.len(),
        dir_find(dir, name, from) == -1 || k < dir_find(dir, name, from),
    ensures
        dir[k].name@ != name,
    decreases dir.len() - from,
{
    lemma_dir_find_range(dir, name, from);
    if from < k {
        if dir[from].name@ != name {
            lemma_dir_lookup_first(dir, name, from + 1, k);
        }
    } else {
        if dir[from].name@ == name {
            assert(dir_find(dir, name, from) == from);
        }
    }
}

/// A new last entry changes no lookup that found something; a name that
/// the directory lacked is found in the new entry, if it is the entry's name.
pub proof fn lemma_lookup_after_push(dir: Seq<DirEntry>, e: DirEntry, name: Seq<u8>)
    ensures
        dir_lookup(dir.push(e), name) == if dir_lookup(dir, name) >= 0 {
            dir_lookup(dir, name)
        } else if e.name@ == name {
            dir.len() as int
        } else {
            -1
        },
{
    let dir2 = dir.push(e);
    lemma_dir_find_range(dir, name, 0);
    let j = dir_lookup(dir, name);
    if j >= 0 {
        assert forall|k: int| 0 <= k < j implies (#[trigger] dir2[k]).name@ != name by {
            lemma_dir_lookup_first(dir, name, 0, k);
            assert(dir2[k] == dir[k]);
        }
        lemma_dir_find_skip(dir2, name, 0, j);
        assert(dir2[j] == dir[j]);
    } else {
        assert forall|k: int| 0 <= k < dir.len() implies (#[trigger] dir2[k]).name@ != name by {
            lemma_dir_lookup_first(dir, name, 0, k);
            assert(dir2[k] == dir[k]);
        }
        lemma_dir_find_skip(dir2, name, 0, dir.len() as int);
        assert(dir2[dir.len() as int] == e);
        if e.name@ != name {
            assert(dir_find(dir2, name, dir.len() as int + 1) == -1);
        }
    }
}

/// Taking out the first entry of one name changes what no other name
/// resolves to: entries behind the one that went move up by one place.
pub proof fn lemma_lookup_after_remove(dir: Seq<DirEntry>, gone: Seq<u8>, name: Seq<u8>)
    requires
        dir_lookup(dir, gone) >= 0,
        name != gone,
    ensures
        dir_lookup(dir.remove(dir_lookup(dir, gone)), name) == if dir_lookup(dir, name)
            < dir_lookup(dir, gone) {
            dir_lookup(dir, name)
        } else {
            dir_lookup(dir, name) - 1
        },
        dir_lookup(dir, name) >= 0 ==> dir.remove(dir_lookup(dir, gone))[dir_lookup(
            dir.remove(dir_lookup(dir, gone)),
            name,
        )] == dir[dir_lookup(dir, name)],
{
    lemma_dir_find_range(dir, gone, 0);
    lemma_dir_find_range(dir, name, 0);
    let i = dir_lookup(dir, gone);
    let j = dir_lookup(dir, name);
    let dir2 = dir.remove(i);
    if j >= 0 {
        assert(j != i);
        let j2 = if j < i {
            j
        } else {
            j - 1
        };
        assert forall|k: int| 0 <= k < j2 implies (#[trigger] dir2[k]).name@ != name by {
            if k < i {
                lemma_dir_lookup_first(dir, name, 0, k);
                assert(dir2[k] == dir[k]);
            } else {
                lemma_dir_lookup_first(dir, name, 0, k + 1);
                assert(dir2[k] == dir[k + 1]);
            }
        }
        lemma_dir_find_skip(dir2, name, 0, j2);
        assert(dir2[j2] == dir[j]);
    } else {
        assert forall|k: int| 0 <= k < dir2.len() implies (#[trigger] dir2[k]).name@ != name by {
            if k < i {
                lemma_dir_lookup_first(dir, name, 0, k);
                assert(dir2[k] == dir[k]);
            } else {
                lemma_dir_lookup_first(dir, name, 0, k + 1);
                assert(dir2[k] == dir[k + 1]);
            }
        }
        lemma_dir_find_skip(dir2, name, 0, dir2.len() as int);
    }
}

/// One more entry is one more link for the inode it names, and none for the others.
pub proof fn lemma_link_count_push(dir: Seq<DirEntry>, e: DirEntry, ino: int)
    ensures
        link_count(dir.push(e), ino) == link_count(dir, ino) + if e.inode == ino {
            1nat
        } else {
            0nat
        },
{
    assert(dir.push(e).drop_last() =~= dir);
}

/// One entry less is one link less for the inode it named, and none for the others.
pub proof fn lemma_link_count_remove(dir: Seq<DirEntry>, i: int, ino: int)
    requires
        0 <= i < dir.len(),
    ensures
        link_count(dir, ino) == link_count(dir.remove(i), ino) + if dir[i].inode == ino {
            1nat
        } else {
            0nat
        },
    decreases dir.len(),
{
    if i == dir.len() - 1 {
        assert(dir.remove(i) =~= dir.drop_last());
    } else {
        assert(dir.remove(i).drop_last() =~= dir.drop_last().remove(i));
        assert(dir.remove(i).last() == dir.last());
        lemma_link_count_remove(dir.drop_last(), i, ino);
    }
}

/// An inode has no more links than the directory has entries.
pub proof fn lemma_link_count_bound(dir: Seq<DirEntry>, ino: int)
    ensures
        link_count(dir, ino) <= dir.len(),
    decreases dir.len(),
{
    if dir.len() > 0 {
        lemma_link_count_bound(dir.drop_last(), ino);
    }
}

/// The directory and the inodes it names.
pub struct FileSystem {
    pub inodes: Vec<Inode>,
    pub dir: Vec<DirEntry>,
}

impl FileSystem {
    /// Every entry names an inode, and each inode's link count is the number
    /// of entries that name it.
    pub open spec fn wf(&self) -> bool {
        &&& forall|i: int| 0 <= i < self.dir.len() ==> (#[trigger] self.dir[i]).inode < self.inodes.len()
        &&& forall|ino: int|
            0 <= ino < self.inodes.len() ==> (#[trigger] self.inodes[ino]).nlink == link_count(
                self.dir@,
                ino,
            )
    }

    /// The inode that `name` resolves to, if the directory has the name.
    pub open spec fn resolve(&self, name: Seq<u8>) -> Option<usize> {
        if dir_lookup(self.dir@, name) >= 0 {
            Some(self.dir[dir_lookup(self.dir@, name)].inode)
        } else {
            None
        }
    }

    /// An empty directory.
    pub fn new() -> (fs: FileSystem)
        ensures
            fs.wf(),
            fs.dir@.len() == 0,
            fs.inodes@.len() == 0,
    {
        FileSystem { inodes: Vec::new(), dir: Vec::new() }
    }

    /// The index of the first entry named `name`.
    pub fn find_entry(&self, name: &Vec<u8>) -> (r: Option<usize>)
        ensures
            match r {
                Some(i) => i == dir_lookup(self.dir@, name@) && i < self.dir.len(),
                None => dir_lookup(self.dir@, name@) == -1,
            },
    {
        let mut i: usize = 0;
        while i < self.dir.len()
            invariant
                i <= self.dir.len(),
                dir_lookup(self.dir@, name@) == dir_find(self.dir@, name@, i as int),
            decreases self.dir.len() - i,
        {
            if bytes_eq(&self.dir[i].name, name) {
                return Some(i);
            }
            i = i + 1;
        }
        None
    }

    /// The inode that `name` resolves to.
    pub fn find(&self, name: &Vec<u8>) -> (r: Option<usize>)
        requires
            self.wf(),
        ensures
            r == self.resolve(name@),
            r is None <==> dir_lookup(self.dir@, name@) == -1,
            r matches Some(ino) ==> ino < self.inodes.len(),
    {
        proof {
            lemma_dir_find_range(self.dir@, name@, 0);
        }
        match self.find_entry(name) {
            Some(i) => Some(self.dir[i].inode),
            None => None,
        }
    }

    /// Adds a new, empty inode under `name` and returns its number.
    pub fn create(&mut self, name: &Vec<u8>) -> (ino: usize)
        requires
            old(self).wf(),
        ensures
            final(self).wf(),
            ino == old(self).inodes.len(),
            final(self).inodes@ == old(self).inodes@.push(final(self).inodes[ino as int]),
            final(self).inodes[ino as int].nlink == 1,
            final(self).inodes[ino as int].data@.len() == 0,
            final(self).dir@ == old(self).dir@.push(final(self).dir@.last()),
            final(self).dir@.last().name@ == name@,
            final(self).dir@.last().inode == ino,
    {
        let ino: usize = self.inodes.len();
        let entry = DirEntry { name: bytes_copy(name), inode: ino };
        proof {
            assert forall|k: int| 0 <= k <= ino implies link_count(self.dir@.push(entry), k) == if k
                == ino {
                1nat
            } else {
                self.inodes[k].nlink as nat
            } by {
                lemma_link_count_push(self.dir@, entry, k);
                if k == ino {
                    lemma_no_links(self.dir@, ino as int);
                }
            }
        }
        self.inodes.push(Inode { nlink: 1, data: Vec::new() });
        self.dir.push(entry);
        ino
    }

    /// Adds the name `new_name` for the inode that `old_name` resolves to.
    pub fn link(&mut self, old_name: &Vec<u8>, new_name: &Vec<u8>) -> (r: Result<(), KernelError>)
        requires
            old(self).wf(),
        ensures
            final(self).wf(),
            r == link_outcome(old(self).dir@, old_name@, new_name@),
            r is Err ==> *final(self) == *old(self),
            r is Ok ==> {
                let ino = old(self).resolve(old_name@)->0;
                &&& final(self).dir@ == old(self).dir@.push(final(self).dir@.last())
                &&& final(self).dir@.last().name@ == new_name@
                &&& final(self).dir@.last().inode == ino
                &&& final(self).inodes.len() == old(self).inodes.len()
                &&& final(self).inodes[ino as int].nlink == old(self).inodes[ino as int].nlink + 1
                &&& final(self).inodes[ino as int].data == old(self).inodes[ino as int].data
                &&& forall|k: int|
                    0 <= k < old(self).inodes.len() && k != ino ==> final(self).inodes[k] == old(
                        self,
                    ).inodes[k]
            },
    {
        if bytes_eq(old_name, new_name) {
            return Err(KernelError::InvalidArgument);
        }
        let ino: usize = match self.find(old_name) {
            Some(ino) => ino,
            None => {
                return Err(KernelError::NotFound);
            },
        };
        let entry = DirEntry { name: bytes_copy(new_name), inode: ino };
        proof {
            assert forall|k: int| 0 <= k < self.inodes.len() implies link_count(
                self.dir@.push(entry),
                k,
            ) == self.inodes[k].nlink + if k == ino {
                1nat
            } else {
                0nat
            } by {
                lemma_link_count_push(self.dir@, entry, k);
            }
        }
        self.dir.push(entry);
        proof {
            lemma_link_count_bound(self.dir@, ino as int);
            assert(link_count(self.dir@, ino as int) == self.inodes[ino as int].nlink + 1);
            assert(self.dir@.len() == self.dir.len());
        }
        self.inodes[ino].nlink = self.inodes[ino].nlink + 1;
        Ok(())
    }

    /// Removes the first entry named `name` and takes one off its inode's link count.
    pub fn unlink(&mut self, name: &Vec<u8>) -> (r: Result<(), KernelError>)
        requires
            old(self).wf(),
        ensures
            final(self).wf(),
            r == unlink_outcome(old(self).dir@, name@),
            r is Err ==> *final(self) == *old(self),
            r is Ok ==> {
                let i = dir_lookup(old(self).dir@, name@);
                let ino = old(self).dir[i].inode;
                &&& final(self).dir@ == old(self).dir@.remove(i)
                &&& final(self).inodes.len() == old(self).inodes.len()
                &&& final(self).inodes[ino as int].nlink == old(self).inodes[ino as int].nlink - 1
                &&& final(self).inodes[ino as int].data == old(self).inodes[ino as int].data
                &&& forall|k: int|
                    0 <= k < old(self).inodes.len() && k != ino ==> final(self).inodes[k] == old(
                        self,
                    ).inodes[k]
            },
    {
        let i: usize = match self.find_entry(name) {
            Some(i) => i,
            None => {
                return Err(KernelError::NotFound);
            },
        };
        let ino: usize = self.dir[i].inode;
        proof {
            assert forall|k: int| 0 <= k < self.inodes.len() implies self.inodes[k].nlink
                == link_count(self.dir@.remove(i as int), k) + if k == ino {
                1nat
            } else {
                0nat
            } by {
                lemma_link_count_remove(self.dir@, i as int, k);
            }
        }
        let _ = self.dir.remove(i);
        self.inodes[ino].nlink = self.inodes[ino].nlink - 1;
        Ok(())
    }

    /// Empties inode `ino`.
    pub fn clear(&mut self, ino: usize)
        requires
            old(self).wf(),
            ino < old(self).inodes.len(),
        ensures
            final(self).wf(),
            final(self).dir == old(self).dir,
            final(self).inodes.len() == old(self).inodes.len(),
            final(self).inodes[ino as int].nlink == old(self).inodes[ino as int].nlink,
            final(self).inodes[ino as int].data@.len() == 0,
            forall|k: int|
                0 <= k < old(self).inodes.len() && k != ino ==> final(self).inodes[k] == old(
                    self,
                ).inodes[k],
    {
        self.inodes[ino].data = Vec::new();
    }

    /// Up to `len` bytes of inode `ino` from `offset` on: as many as the inode has there.
    pub fn read_at(&self, ino: usize, offset: usize, len: usize) -> (r: Vec<u8>)
        requires
            ino < self.inodes.len(),
        ensures
            r@ == read_at_result(self.inodes[ino as int].data@, offset as int, len as int),
    {
        let data = &self.inodes[ino].data;
        let mut out: Vec<u8> = Vec::new();
        if offset >= data.len() {
            assert(out@ =~= read_at_result(data@, offset as int, len as int));
            return out;
        }
        let avail: usize = data.len() - offset;
        let n: usize = if len < avail {
            len
        } else {
            avail
        };
        let mut k: usize = 0;
        while k < n
            invariant
                k <= n,
                offset + n <= data.len(),
                out@ == data@.subrange(offset as int, offset + k),
            decreases n - k,
        {
            out.push(data[offset + k]);
            k = k + 1;
            assert(out@ =~= data@.subrange(offset as int, offset + k));
        }
        out
    }

    /// Puts `bytes` into inode `ino` at `offset`; the inode grows where they
    /// reach past its end, with zero bytes between its old end and `offset`.
    pub fn write_at(&mut self, ino: usize, offset: usize, bytes: &Vec<u8>)
        requires
            old(self).wf(),
            ino < old(self).inodes.len(),
            offset + bytes.len() <= usize::MAX,
        ensures
            final(self).wf(),
            final(self).dir == old(self).dir,
            final(self).inodes.len() == old(self).inodes.len(),
            final(self).inodes[ino as int].nlink == old(self).inodes[ino as int].nlink,
            final(self).inodes[ino as int].data@ == write_at_result(
                old(self).inodes[ino as int].data@,
                offset as int,
                bytes@,
            ),
            forall|k: int|
                0 <= k < old(self).inodes.len() && k != ino ==> final(self).inodes[k] == old(
                    self,
                ).inodes[k],
    {
        let ghost d0 = self.inodes[ino as int].data@;
        let mut data: Vec<u8> = Vec::new();
        core::mem::swap(&mut self.inodes[ino].data, &mut data);
        while data.len() < offset
            invariant
                data@.len() <= offset || data@ == d0,
                d0.len() <= data@.len(),
                data@ == d0 + zeros((data@.len() - d0.len()) as nat),
            decreases offset - data.len(),
        {
            data.push(0u8);
            assert(data@ =~= d0 + zeros((data@.len() - d0.len()) as nat));
        }
        let mut k: usize = 0;
        assert(data@ =~= d0 + zeros((data@.len() - d0.len()) as nat));
        let ghost d1 = data@;
        while k < bytes.len()
            invariant
                k <= bytes.len(),
                offset + bytes.len() <= usize::MAX,
                offset <= d1.len(),
                d1 == write_at_result(d0, offset as int, Seq::<u8>::empty()),
                data@ == write_at_result(d0, offset as int, bytes@.take(k as int)),
            decreases bytes.len() - k,
        {
            if offset + k < data.len() {
                data[offset + k] = bytes[k];
            } else {
                data.push(bytes[k]);
            }
            k = k + 1;
            assert(data@ =~= write_at_result(d0, offset as int, bytes@.take(k as int)));
        }
        assert(bytes@.take(bytes.len() as int) =~= bytes@);
        core::mem::swap(&mut self.inodes[ino].data, &mut data);
    }
}

/// An inode that no entry names has no links.
proof fn lemma_no_links(dir: Seq<DirEntry>, ino: int)
    requires
        forall|i: int| 0 <= i < dir.len() ==> (#[trigger] dir[i]).inode < ino,
    ensures
        link_count(dir, ino) == 0,
    decreases dir.len(),
{
    if dir.len() > 0 {
        assert(dir.last() == dir[dir.len() - 1]);
        assert forall|i: int| 0 <= i < dir.drop_last().len() implies (#[trigger] dir.drop_last()[i]).inode
            < ino by {
            assert(dir.drop_last()[i] == dir[i]);
        }
        lemma_no_links(dir.drop_last(), ino);
    }
}

/// What `link` answers on directory `dir`.
pub open spec fn link_outcome(dir: Seq<DirEntry>, old_name: Seq<u8>, new_name: Seq<u8>) -> Result<
    (),
    KernelError,
> {
    if old_name == new_name {
        Err(KernelError::InvalidArgument)
    } else if dir_lookup(dir, old_name) == -1 {
        Err(KernelError::NotFound)
    } else {
        Ok(())
    }
}

/// What `unlink` answers on directory `dir`.
pub open spec fn unlink_outcome(dir: Seq<DirEntry>, name: Seq<u8>) -> Result<(), KernelError> {
    if dir_lookup(dir, name) == -1 {
        Err(KernelError::NotFound)
    } else {
        Ok(())
    }
}

/// The bytes that a read of `len` bytes at `offset` finds in `data`.
pub open spec fn read_at_result(data: Seq<u8>, offset: int, len: int) -> Seq<u8> {
    if offset >= data.len() {
        Seq::empty()
    } else if offset + len <= data.len() {
        data.subrange(offset, offset + len)
    } else {
        data.subrange(offset, data.len() as int)
    }
}

/// `data` after `bytes` were written at `offset`.
pub open spec fn write_at_result(data: Seq<u8>, offset: int, bytes: Seq<u8>) -> Seq<u8> {
    Seq::new(
        if data.len() >= offset + bytes.len() {
            data.len()
        } else {
            (offset + bytes.len()) as nat
        },
        |i: int|
            if offset <= i < offset + bytes.len() {
                bytes[i - offset]
            } else if i < data.len() {
                data[i]
            } else {
                0u8
            },
    )
}

/// The console: bytes typed and not yet read, and bytes written so far.
pub struct Console {
    pub input: Vec<u8>,
    pub output: Vec<u8>,
}

/// What a descriptor slot refers to.
#[derive(Clone, Copy, Debug, PartialEq, Eq, Structural)]
pub enum FileKind {
    /// The console's input.
    Stdin,
    /// The console's output.
    Stdout,
    /// An inode of the file system.
    Regular,
}

/// An open file: what it refers to, what it allows, and where the next read
/// or write goes. Descriptor slots name open files; slots that name the same
/// one, in one process or in several, share all of this.
#[derive(Clone, Copy, Debug, PartialEq, Eq, Structural)]
pub struct FileHandle {
    pub kind: FileKind,
    /// The inode, for a `Regular` handle.
    pub inode: usize,
    pub readable: bool,
    pub writable: bool,
    pub offset: usize,
}

/// The place of the console's input among the open files.
pub const CONSOLE_IN: usize = 0;

/// The place of the console's output among the open files.
pub const CONSOLE_OUT: usize = 1;

/// The first place among the open files that holds no console stream.
pub const FIRST_FILE: usize = 2;

/// The open file that is the console's input.
pub open spec fn console_in() -> FileHandle {
    FileHandle { kind: FileKind::Stdin, inode: 0, readable: true, writable: false, offset: 0 }
}

/// The open file that is the console's output.
pub open spec fn console_out() -> FileHandle {
    FileHandle { kind: FileKind::Stdout, inode: 0, readable: false, writable: true, offset: 0 }
}

/// What `fstat` reports of an open file.
#[derive(Clone, Copy, Debug, PartialEq, Eq, Structural)]
pub struct Stat {
    /// The device; always 0.
    pub dev: u64,
    /// The inode number.
    pub ino: u64,
    /// The kind of file.
    pub mode: u32,
    /// The number of names of the inode.
    pub nlink: u32,
}

impl Stat {
    /// The record as user memory holds it: `dev` and `ino` in eight bytes
    /// each, `mode` and `nlink` in four each, then 56 bytes of padding.
    pub open spec fn encoding(self) -> Seq<u8> {
        u64_le(self.dev) + u64_le(self.ino) + u32_le(self.mode) + u32_le(self.nlink) + zeros(56)
    }

    /// The record as user memory holds it.
    pub fn encode(&self) -> (r: Vec<u8>)
        ensures
            r@ == self.encoding(),
            r@.len() == STAT_SIZE,
    {
        let mut out: Vec<u8> = Vec::new();
        push_u64_le(&mut out, self.dev);
        push_u64_le(&mut out, self.ino);
        push_u32_le(&mut out, self.mode);
        push_u32_le(&mut out, self.nlink);
        push_zeros(&mut out, 56);
        assert(out@ =~= self.encoding());
        out
    }
}

/// Whether `flags` holds no bit but those of the access mode, `O_CREATE` and `O_TRUNC`.
pub open spec fn flags_valid(flags: u32) -> bool {
    flags % 512 < 4 && flags / 2048 == 0
}

/// Whether `flags` asks for creation.
pub open spec fn flags_create(flags: u32) -> bool {
    flags / 512 % 2 == 1
}

/// Whether `flags` asks for truncation.
pub open spec fn flags_trunc(flags: u32) -> bool {
    flags / 1024 % 2 == 1
}

/// Whether a file opened with `flags` can be read: unless they say write-only.
pub open spec fn flags_readable(flags: u32) -> bool {
    flags % 2 == 0
}

/// Whether a file opened with `flags` can be written: unless they say nothing at all.
pub open spec fn flags_writable(flags: u32) -> bool {
    flags != 0
}

/// The handle that opening inode `ino` with `flags` gives.
pub open spec fn opened(ino: usize, flags: u32) -> FileHandle {
    FileHandle {
        kind: FileKind::Regular,
        inode: ino,
        readable: flags_readable(flags),
        writable: flags_writable(flags),
        offset: 0,
    }
}

/// What `fstat` reports of an open file: device 0 and the mode of an
/// ordinary file, whatever the file is; for a file of an inode, the
/// inode's number and the number `nlink` of its names, no more than the
/// record's field can hold; for a console stream, which has no inode, 0 for both.
pub open spec fn stat_of(h: FileHandle, nlink: usize) -> Stat {
    Stat {
        dev: 0,
        ino: if h.kind == FileKind::Regular {
            h.inode as u64
        } else {
            0
        },
        mode: STAT_MODE_FILE,
        nlink: if h.kind != FileKind::Regular {
            0
        } else if nlink > u32::MAX {
            u32::MAX
        } else {
            nlink as u32
        },
    }
}

} // verus!
