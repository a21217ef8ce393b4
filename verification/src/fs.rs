//! File and filesystem syscalls, over a model of the kernel objects they
//! decide about: a flat directory of named links to inodes, inode contents,
//! and the current task's descriptor table. The virtual-memory marshalling
//! that surrounds the real entry points (translating user pointers into
//! kernel buffers) is the syscall dispatcher's business; here buffers and
//! paths arrive as plain byte vectors.

use vstd::prelude::*;

verus! {

/// Open for reading only.
pub const RDONLY: u32 = 0;

/// Open for writing only.
pub const WRONLY: u32 = 1;

/// Open for reading and writing.
pub const RDWR: u32 = 2;

/// Create the file; an existing file of that name is emptied.
pub const CREATE: u32 = 512;

/// Empty the file on opening.
pub const TRUNC: u32 = 1024;

/// Mode bits of a regular file.
pub const STAT_MODE_FILE: u32 = 0o100000;

/// What the stat syscall reports about an open file.
#[derive(Clone, Copy, Debug, PartialEq, Eq, Structural)]
pub struct Stat {
    pub dev: u64,
    pub ino: u64,
    pub mode: u32,
    pub nlink: u32,
}

/// The open-flag bits the kernel knows. The real entry point unwraps the
/// parsed flags and panics on anything else, so unknown bits are excluded by
/// precondition here.
pub open spec fn valid_flags(flags: u32) -> bool {
    flags & !(WRONLY | RDWR | CREATE | TRUNC) == 0
}

/// Whether the descriptor opened with these flags may read.
pub open spec fn flags_readable(flags: u32) -> bool {
    flags & WRONLY == 0
}

/// Whether the descriptor opened with these flags may write.
pub open spec fn flags_writable(flags: u32) -> bool {
    flags != 0
}

/// One open descriptor of the current task.
#[derive(Clone, Copy)]
pub struct FdEntry {
    pub readable: bool,
    pub writable: bool,
    /// Index of the open file's inode.
    pub inode: usize,
    /// Read/write position within the file.
    pub offset: usize,
}

/// One directory entry: a name linked to an inode.
pub struct DirEntry {
    pub name: Vec<u8>,
    pub inode: usize,
}

/// The filesystem as this layer sees it, together with the current task's
/// descriptor table.
pub struct FsState {
    /// File contents by inode number; `None` is a released inode.
    pub inodes: Vec<Option<Vec<u8>>>,
    /// The (flat) directory: name lookups take the first match.
    pub dir: Vec<DirEntry>,
    /// The current task's descriptors; `None` is a free slot.
    pub fd_table: Vec<Option<FdEntry>>,
}

/// Index of the first directory entry carrying `name`, or -1.
pub open spec fn first_match(dir: Seq<DirEntry>, name: Seq<u8>, i: int) -> int
    decreases dir.len() - i,
{
    if i < 0 || i >= dir.len() {
        -1
    } else if dir[i].name@ == name {
        i
    } else {
        first_match(dir, name, i + 1)
    }
}

/// Index of the first free descriptor slot, or -1 when the table is full.
pub open spec fn first_free(fds: Seq<Option<FdEntry>>, i: int) -> int
    decreases fds.len() - i,
{
    if i < 0 || i >= fds.len() {
        -1
    } else if fds[i] is None {
        i
    } else {
        first_free(fds, i + 1)
    }
}

/// How many directory entries link to inode `ino`, among the first `n`.
pub open spec fn link_count(dir: Seq<DirEntry>, ino: usize, n: int) -> int
    decreases n,
{
    if n <= 0 {
        0
    } else {
        link_count(dir, ino, n - 1) + if dir[n - 1].inode == ino {
            1int
        } else {
            0int
        }
    }
}

/// Some descriptor still references inode `ino`.
pub open spec fn fd_references(fds: Seq<Option<FdEntry>>, ino: usize) -> bool {
    exists|k: int| 0 <= k < fds.len() && ((#[trigger] fds[k]) matches Some(e) && e.inode == ino)
}

/// The file contents after writing `data` at position `off`: the file is
/// zero-padded up to `off` if it was shorter, and grows as needed.
pub open spec fn write_at(content: Seq<u8>, off: int, data: Seq<u8>) -> Seq<u8> {
    let end = if off + data.len() > content.len() {
        off + data.len()
    } else {
        content.len() as int
    };
    Seq::new(
        end as nat,
        |i: int|
            if off <= i < off + data.len() {
                data[i - off]
            } else if i < content.len() {
                content[i]
            } else {
                0u8
            },
    )
}

/// The bytes a read of `len` at position `off` returns: up to `len` bytes,
/// stopping at the end of the file; nothing when the position is past it.
pub open spec fn read_slice(content: Seq<u8>, off: int, len: int) -> Seq<u8> {
    if off >= content.len() {
        Seq::empty()
    } else if off + len <= content.len() {
        content.subrange(off, off + len)
    } else {
        content.subrange(off, content.len() as int)
    }
}

impl FsState {
    /// Every descriptor and every directory entry points at a live inode.
    pub open spec fn wf(&self) -> bool {
        &&& forall|k: int|
            0 <= k < self.fd_table@.len() ==> ((#[trigger] self.fd_table@[k]) matches Some(e)
                ==> e.inode < self.inodes@.len() && self.inodes@[e.inode as int] is Some)
        &&& forall|k: int|
            0 <= k < self.dir@.len() ==> (#[trigger] self.dir@[k]).inode < self.inodes@.len()
                && self.inodes@[self.dir@[k].inode as int] is Some
    }

    /// A name resolves in the directory.
    pub open spec fn has_file(&self, name: Seq<u8>) -> bool {
        first_match(self.dir@, name, 0) >= 0
    }

    /// An empty filesystem with an empty descriptor table.
    pub fn new() -> (fs: FsState)
        ensures
            fs.wf(),
            fs.inodes@.len() == 0,
            fs.dir@.len() == 0,
            fs.fd_table@.len() == 0,
    {
        FsState { inodes: Vec::new(), dir: Vec::new(), fd_table: Vec::new() }
    }

    /// Resolve a name to its first directory entry.
    fn find_entry(&self, name: &Vec<u8>) -> (r: isize)
        requires
            self.dir@.len() < isize::MAX as usize,
        ensures
            r as int == first_match(self.dir@, name@, 0),
            r >= 0 ==> (r as int) < self.dir@.len() && self.dir@[r as int].name@ == name@,
    {
        let n = self.dir.len();
        let mut i: usize = 0;
        while i < n
            invariant
                i <= n,
                n == self.dir@.len(),
                n < isize::MAX as usize,
                first_match(self.dir@, name@, 0) == first_match(self.dir@, name@, i as int),
            decreases n - i,
        {
            if &self.dir[i].name == name {
                proof {
                    assert(self.dir@[i as int].name@ =~= name@);
                }
                return i as isize;
            }
            proof {
                assert(!(self.dir@[i as int].name@ =~= name@));
            }
            i += 1;
        }
        -1
    }

    /// Put a descriptor into the lowest free slot, extending the table when
    /// none is free; returns the descriptor number.
    fn alloc_fd(&mut self, entry: FdEntry) -> (fd: usize)
        requires
            old(self).fd_table@.len() < isize::MAX as usize,
        ensures
            final(self).inodes@ == old(self).inodes@,
            final(self).dir@ == old(self).dir@,
            fd < final(self).fd_table@.len(),
            final(self).fd_table@[fd as int] == Some(entry),
            final(self).fd_table@.len() >= old(self).fd_table@.len(),
            fd <= old(self).fd_table@.len(),
            fd < old(self).fd_table@.len() ==> final(self).fd_table@.len() == old(
                self,
            ).fd_table@.len(),
            fd == old(self).fd_table@.len() ==> final(self).fd_table@.len() == old(
                self,
            ).fd_table@.len() + 1,
            forall|k: int|
                0 <= k < old(self).fd_table@.len() && k != fd ==> final(self).fd_table@[k] == old(
                    self,
                ).fd_table@[k],
            ({
                let free = first_free(old(self).fd_table@, 0);
                if free >= 0 {
                    fd as int == free && final(self).fd_table@ == old(self).fd_table@.update(
                        free,
                        Some(entry),
                    )
                } else {
                    fd as int == old(self).fd_table@.len() && final(self).fd_table@ == old(
                        self,
                    ).fd_table@.push(Some(entry))
                }
            }),
    {
        let n = self.fd_table.len();
        let mut i: usize = 0;
        while i < n
            invariant
                i <= n,
                n == self.fd_table@.len(),
                *self == *old(self),
                first_free(old(self).fd_table@, 0) == first_free(old(self).fd_table@, i as int),
            decreases n - i,
        {
            if self.fd_table[i].is_none() {
                self.fd_table[i] = Some(entry);
                return i;
            }
            i += 1;
        }
        self.fd_table.push(Some(entry));
        n
    }

    /// Open a file: with `CREATE`, an existing file is emptied and a missing
    /// one is created; without it, a missing file is an error (-1) and
    /// `TRUNC` empties the file. On success a descriptor with the
    /// flag-derived permissions and offset zero goes into the lowest free
    /// slot and its number is returned.
    pub fn sys_open(&mut self, path: &Vec<u8>, flags: u32) -> (r: isize)
        requires
            old(self).wf(),
            valid_flags(flags),
            old(self).dir@.len() < isize::MAX as usize,
            old(self).fd_table@.len() < isize::MAX as usize,
            old(self).inodes@.len() < usize::MAX,
        ensures
            final(self).wf(),
            r == -1 <==> (flags & CREATE == 0 && !old(self).has_file(path@)),
            r == -1 ==> *final(self) == *old(self),
            r >= 0 ==> ({
                let e = FdEntry {
                    readable: flags_readable(flags),
                    writable: flags_writable(flags),
                    inode: final(self).fd_ino(r as int),
                    offset: 0,
                };
                let free = first_free(old(self).fd_table@, 0);
                &&& (free >= 0 ==> r as int == free && final(self).fd_table@ == old(
                    self,
                ).fd_table@.update(free, Some(e)))
                &&& (free < 0 ==> r as int == old(self).fd_table@.len() && final(self).fd_table@
                    == old(self).fd_table@.push(Some(e)))
                &&& ((final(self).inodes@[final(self).fd_ino(r as int) as int] matches Some(c)
                    && c@ == Seq::<u8>::empty()) || (flags & CREATE == 0 && flags & TRUNC == 0
                    && final(self).inodes@ == old(self).inodes@))
                &&& (old(self).has_file(path@) ==> final(self).dir@ == old(self).dir@
                    && final(self).fd_ino(r as int) == old(self).dir@[first_match(
                    old(self).dir@,
                    path@,
                    0,
                )].inode)
                &&& (!old(self).has_file(path@) ==> final(self).fd_ino(r as int) == old(
                    self,
                ).inodes@.len() && final(self).inodes@.len() == old(self).inodes@.len() + 1
                    && final(self).dir@.len() == old(self).dir@.len() + 1
                    && final(self).dir@[old(self).dir@.len() as int].name@ == path@
                    && final(self).dir@[old(self).dir@.len() as int].inode == old(
                    self,
                ).inodes@.len())
            }),
    {
        let idx = self.find_entry(path);
        let ino: usize;
        if flags & CREATE != 0 {
            if idx >= 0 {
                ino = self.dir[idx as usize].inode;
                self.inodes[ino] = Some(Vec::new());
                proof {
                    assert(self.inodes@[ino as int]->Some_0@ =~= Seq::<u8>::empty());
                }
            } else {
                ino = self.inodes.len();
                self.inodes.push(Some(Vec::new()));
                self.dir.push(DirEntry { name: clone_bytes(path), inode: ino });
                proof {
                    assert(self.inodes@[ino as int]->Some_0@ =~= Seq::<u8>::empty());
                    assert forall|k: int| 0 <= k < self.dir@.len() implies (#[trigger] self.dir@[k]).inode
                        < self.inodes@.len() && self.inodes@[self.dir@[k].inode as int] is Some by {
                        if k < old(self).dir@.len() {
                            assert(old(self).dir@[k].inode < old(self).inodes@.len());
                        }
                    }
                }
            }
        } else {
            if idx < 0 {
                return -1;
            }
            ino = self.dir[idx as usize].inode;
            if flags & TRUNC != 0 {
                self.inodes[ino] = Some(Vec::new());
                proof {
                    assert(self.inodes@[ino as int]->Some_0@ =~= Seq::<u8>::empty());
                }
            }
        }
        let entry = FdEntry {
            readable: flags & WRONLY == 0,
            writable: flags != 0,
            inode: ino,
            offset: 0,
        };
        let ghost mid = *self;
        proof {
            assert(ino < mid.inodes@.len());
            assert(mid.inodes@[ino as int] is Some);
            assert forall|k: int|
                0 <= k < mid.fd_table@.len() implies ((#[trigger] mid.fd_table@[k]) matches Some(
                en,
            ) ==> en.inode < mid.inodes@.len() && mid.inodes@[en.inode as int] is Some) by {
                assert(old(self).fd_table@[k] == mid.fd_table@[k]);
                if old(self).fd_table@[k] is Some {
                    assert(old(self).fd_table@[k]->Some_0.inode < old(self).inodes@.len());
                    assert(old(self).inodes@[old(self).fd_table@[k]->Some_0.inode as int]
                        is Some);
                }
            }
            assert forall|k: int|
                0 <= k < mid.dir@.len() implies (#[trigger] mid.dir@[k]).inode
                < mid.inodes@.len() && mid.inodes@[mid.dir@[k].inode as int] is Some by {
                if k < old(self).dir@.len() {
                    assert(old(self).dir@[k] == mid.dir@[k]);
                    assert(old(self).dir@[k].inode < old(self).inodes@.len());
                    assert(old(self).inodes@[old(self).dir@[k].inode as int] is Some);
                } else {
                    assert(mid.dir@[k].inode == ino);
                }
            }
        }
        let fd = self.alloc_fd(entry);
        proof {
            assert(self.fd_table@[fd as int] == Some(entry));
            assert forall|k: int|
                0 <= k < self.fd_table@.len() implies ((#[trigger] self.fd_table@[k]) matches Some(
                en,
            ) ==> en.inode < self.inodes@.len() && self.inodes@[en.inode as int] is Some) by {
                if k == fd {
                    assert(self.fd_table@[k] == Some(entry));
                    assert(entry.inode == ino);
                    assert(self.inodes@ == mid.inodes@);
                    assert(ino < mid.inodes@.len());
                    assert(mid.inodes@[ino as int] is Some);
                    assert(entry.inode < self.inodes@.len());
                    assert(self.inodes@[entry.inode as int] is Some);
                } else {
                    assert(k < mid.fd_table@.len());
                    assert(self.fd_table@[k] == mid.fd_table@[k]);
                }
            }
        }
        fd as isize
    }

    /// The inode a (valid, occupied) descriptor points at.
    pub open spec fn fd_ino(&self, fd: int) -> usize {
        self.fd_table@[fd]->Some_0.inode
    }

    /// Close a descriptor: frees the slot; an out-of-range or free
    /// descriptor is an error (-1).
    pub fn sys_close(&mut self, fd: usize) -> (r: isize)
        requires
            old(self).wf(),
        ensures
            final(self).wf(),
            r == -1 <==> (fd >= old(self).fd_table@.len() || old(self).fd_table@[fd as int]
                is None),
            r == -1 ==> *final(self) == *old(self),
            r == 0 ==> final(self).fd_table@ == old(self).fd_table@.update(fd as int, None)
                && final(self).inodes@ == old(self).inodes@ && final(self).dir@ == old(self).dir@,
    {
        if fd >= self.fd_table.len() {
            return -1;
        }
        if self.fd_table[fd].is_none() {
            return -1;
        }
        self.fd_table[fd] = None;
        0
    }

    /// Report metadata of an open file: device zero, the inode number, the
    /// regular-file mode, and the live link count. An out-of-range or free
    /// descriptor is an error (-1, no record). The copy into the caller's
    /// buffer is the dispatcher's marshalling, not modeled here.
    pub fn sys_fstat(&self, fd: usize) -> (r: (isize, Option<Stat>))
        requires
            self.wf(),
            self.dir@.len() <= u32::MAX as usize,
        ensures
            r.0 == -1 <==> (fd >= self.fd_table@.len() || self.fd_table@[fd as int] is None),
            r.0 == -1 ==> r.1 is None,
            r.0 == 0 ==> ({
                let ino = self.fd_ino(fd as int);
                r.1 == Some(
                    Stat {
                        dev: 0,
                        ino: ino as u64,
                        mode: STAT_MODE_FILE,
                        nlink: link_count(self.dir@, ino, self.dir@.len() as int) as u32,
                    },
                )
            }),
    {
        if fd >= self.fd_table.len() {
            return (-1, None);
        }
        let oe = self.fd_table[fd];
        if oe.is_none() {
            return (-1, None);
        }
        let ino = oe.unwrap().inode;
        let n = self.dir.len();
        let mut nlink: u32 = 0;
        let mut i: usize = 0;
        while i < n
            invariant
                i <= n,
                n == self.dir@.len(),
                n <= u32::MAX as usize,
                nlink as int == link_count(self.dir@, ino, i as int),
                nlink <= i as u32,
            decreases n - i,
        {
            if self.dir[i].inode == ino {
                nlink = nlink + 1;
            }
            i += 1;
        }
        (0, Some(Stat { dev: 0, ino: ino as u64, mode: STAT_MODE_FILE, nlink }))
    }

    /// Write the buffer at the descriptor's offset: grows the file as
    /// needed, advances the offset, and reports the bytes written. An
    /// out-of-range, free, or read-only descriptor is an error (-1).
    pub fn sys_write(&mut self, fd: usize, buf: &Vec<u8>) -> (r: isize)
        requires
            old(self).wf(),
            buf@.len() <= isize::MAX as usize,
            fd < old(self).fd_table@.len() ==> (old(self).fd_table@[fd as int] matches Some(e)
                ==> e.offset + buf@.len() <= usize::MAX),
        ensures
            final(self).wf(),
            r == -1 <==> (fd >= old(self).fd_table@.len() || old(self).fd_table@[fd as int]
                is None || !old(self).fd_table@[fd as int]->Some_0.writable),
            r == -1 ==> *final(self) == *old(self),
            r >= 0 ==> ({
                let e = old(self).fd_table@[fd as int]->Some_0;
                let content = old(self).inodes@[e.inode as int]->Some_0@;
                &&& r as int == buf@.len()
                &&& final(self).dir@ == old(self).dir@
                &&& final(self).inodes@.len() == old(self).inodes@.len()
                &&& (forall|k: int|
                    0 <= k < old(self).inodes@.len() && k != e.inode ==> final(self).inodes@[k]
                        == old(self).inodes@[k])
                &&& final(self).inodes@[e.inode as int] matches Some(c) && c@ == write_at(
                    content,
                    e.offset as int,
                    buf@,
                )
                &&& final(self).fd_table@ == old(self).fd_table@.update(
                    fd as int,
                    Some(
                        FdEntry {
                            readable: e.readable,
                            writable: e.writable,
                            inode: e.inode,
                            offset: (e.offset + buf@.len()) as usize,
                        },
                    ),
                )
            }),
    {
        if fd >= self.fd_table.len() {
            return -1;
        }
        let oe = self.fd_table[fd];
        if oe.is_none() {
            return -1;
        }
        let e = oe.unwrap();
        if !e.writable {
            return -1;
        }
        let ino = e.inode;
        let mut out: Vec<u8> = Vec::new();
        match &self.inodes[ino] {
            Some(cc) => {
                let ghost wa = write_at(cc@, e.offset as int, buf@);
                let end = if e.offset + buf.len() > cc.len() {
                    e.offset + buf.len()
                } else {
                    cc.len()
                };
                let mut i: usize = 0;
                while i < end
                    invariant
                        i <= end,
                        end == wa.len(),
                        wa == write_at(cc@, e.offset as int, buf@),
                        e.offset + buf@.len() <= usize::MAX,
                        buf@.len() <= isize::MAX as usize,
                        end == if e.offset + buf@.len() > cc@.len() {
                            e.offset + buf@.len()
                        } else {
                            cc@.len() as int
                        },
                        out@ == wa.subrange(0, i as int),
                    decreases end - i,
                {
                    let byte: u8 = if i >= e.offset && i < e.offset + buf.len() {
                        buf[i - e.offset]
                    } else if i < cc.len() {
                        cc[i]
                    } else {
                        0
                    };
                    proof {
                        assert(byte == wa[i as int]);
                    }
                    out.push(byte);
                    proof {
                        assert(out@ =~= wa.subrange(0, i + 1));
                    }
                    i += 1;
                }
                proof {
                    assert(out@ =~= wa);
                }
            },
            None => {
                proof {
                    assert(false);
                }
            },
        }
        self.inodes[ino] = Some(out);
        self.fd_table[fd] = Some(
            FdEntry {
                readable: e.readable,
                writable: e.writable,
                inode: e.inode,
                offset: e.offset + buf.len(),
            },
        );
        buf.len() as isize
    }

    /// Read up to `len` bytes at the descriptor's offset: returns the count
    /// and the bytes, stopping at the end of the file, and advances the
    /// offset by the count. An out-of-range, free, or write-only descriptor
    /// is an error (-1, no bytes).
    pub fn sys_read(&mut self, fd: usize, len: usize) -> (r: (isize, Vec<u8>))
        requires
            old(self).wf(),
            len <= isize::MAX as usize,
        ensures
            final(self).wf(),
            r.0 == -1 <==> (fd >= old(self).fd_table@.len() || old(self).fd_table@[fd as int]
                is None || !old(self).fd_table@[fd as int]->Some_0.readable),
            r.0 == -1 ==> *final(self) == *old(self) && r.1@.len() == 0,
            r.0 >= 0 ==> ({
                let e = old(self).fd_table@[fd as int]->Some_0;
                let content = old(self).inodes@[e.inode as int]->Some_0@;
                let data = read_slice(content, e.offset as int, len as int);
                &&& r.0 as int == data.len()
                &&& r.1@ == data
                &&& final(self).dir@ == old(self).dir@
                &&& final(self).inodes@ == old(self).inodes@
                &&& final(self).fd_table@ == old(self).fd_table@.update(
                    fd as int,
                    Some(
                        FdEntry {
                            readable: e.readable,
                            writable: e.writable,
                            inode: e.inode,
                            offset: (e.offset + data.len()) as usize,
                        },
                    ),
                )
            }),
    {
        if fd >= self.fd_table.len() {
            return (-1, Vec::new());
        }
        let oe = self.fd_table[fd];
        if oe.is_none() {
            return (-1, Vec::new());
        }
        let e = oe.unwrap();
        if !e.readable {
            return (-1, Vec::new());
        }
        let ino = e.inode;
        let mut data: Vec<u8> = Vec::new();
        match &self.inodes[ino] {
            Some(cc) => {
                let ghost sl = read_slice(cc@, e.offset as int, len as int);
                if e.offset < cc.len() {
                    let max_i = if len < cc.len() - e.offset {
                        len
                    } else {
                        cc.len() - e.offset
                    };
                    let mut i: usize = 0;
                    while i < max_i
                        invariant
                            i <= max_i,
                            e.offset < cc@.len(),
                            cc@.len() <= usize::MAX,
                            max_i == if len < cc@.len() - e.offset {
                                len as int
                            } else {
                                cc@.len() - e.offset
                            },
                            sl == read_slice(cc@, e.offset as int, len as int),
                            sl.len() == max_i,
                            data@ == sl.subrange(0, i as int),
                        decreases max_i - i,
                    {
                        proof {
                            assert(e.offset + i < cc@.len());
                        }
                        let byte = cc[e.offset + i];
                        proof {
                            assert(byte == sl[i as int]);
                        }
                        data.push(byte);
                        proof {
                            assert(data@ =~= sl.subrange(0, i + 1));
                        }
                        i += 1;
                    }
                }
                proof {
                    assert(data@ =~= sl);
                }
            },
            None => {
                proof {
                    assert(false);
                }
            },
        }
        let count = data.len();
        self.fd_table[fd] = Some(
            FdEntry {
                readable: e.readable,
                writable: e.writable,
                inode: e.inode,
                offset: e.offset + count,
            },
        );
        (count as isize, data)
    }

    /// Link an existing file under a second name: appends a directory entry
    /// for the same inode. A missing source or identical names are an error
    /// (-1).
    pub fn sys_linkat(&mut self, old_name: &Vec<u8>, new_name: &Vec<u8>) -> (r: isize)
        requires
            old(self).wf(),
            old(self).dir@.len() < isize::MAX as usize,
        ensures
            final(self).wf(),
            r == -1 <==> (!old(self).has_file(old_name@) || old_name@ == new_name@),
            r == -1 ==> *final(self) == *old(self),
            r == 0 ==> ({
                let ino = old(self).dir@[first_match(old(self).dir@, old_name@, 0)].inode;
                &&& final(self).inodes@ == old(self).inodes@
                &&& final(self).fd_table@ == old(self).fd_table@
                &&& final(self).dir@.len() == old(self).dir@.len() + 1
                &&& (forall|k: int|
                    0 <= k < old(self).dir@.len() ==> final(self).dir@[k] == old(self).dir@[k])
                &&& final(self).dir@[old(self).dir@.len() as int].name@ == new_name@
                &&& final(self).dir@[old(self).dir@.len() as int].inode == ino
            }),
    {
        let idx = self.find_entry(old_name);
        if idx < 0 {
            return -1;
        }
        if old_name == new_name {
            proof {
                assert(old_name@ =~= new_name@);
            }
            return -1;
        }
        proof {
            assert(!(old_name@ =~= new_name@));
        }
        let ino = self.dir[idx as usize].inode;
        self.dir.push(DirEntry { name: clone_bytes(new_name), inode: ino });
        proof {
            assert forall|k: int| 0 <= k < self.dir@.len() implies (#[trigger] self.dir@[k]).inode
                < self.inodes@.len() && self.inodes@[self.dir@[k].inode as int] is Some by {
                if k < old(self).dir@.len() {
                    assert(old(self).dir@[k].inode < old(self).inodes@.len());
                } else {
                    assert(self.dir@[k].inode == ino);
                    assert(old(self).dir@[idx as int].inode < old(self).inodes@.len());
                }
            }
        }
        0
    }

    /// Remove a name: deletes its (first) directory entry; when that was the
    /// last link and no descriptor still has the file open, the inode is
    /// released. A missing name is an error (-1).
    pub fn sys_unlinkat(&mut self, name: &Vec<u8>) -> (r: isize)
        requires
            old(self).wf(),
            old(self).dir@.len() < isize::MAX as usize,
        ensures
            final(self).wf(),
            r == -1 <==> !old(self).has_file(name@),
            r == -1 ==> *final(self) == *old(self),
            r == 0 ==> ({
                let at = first_match(old(self).dir@, name@, 0);
                let ino = old(self).dir@[at].inode;
                let dir1 = old(self).dir@.remove(at);
                &&& final(self).dir@ == dir1
                &&& final(self).fd_table@ == old(self).fd_table@
                &&& (if link_count(dir1, ino, dir1.len() as int) == 0 && !fd_references(
                    old(self).fd_table@,
                    ino,
                ) {
                    final(self).inodes@ == old(self).inodes@.update(ino as int, None)
                } else {
                    final(self).inodes@ == old(self).inodes@
                })
            }),
    {
        let idx = self.find_entry(name);
        if idx < 0 {
            return -1;
        }
        let at = idx as usize;
        let ino = self.dir[at].inode;
        self.dir.remove(at);
        let ghost dir1 = self.dir@;
        let n = self.dir.len();
        let mut nlink: usize = 0;
        let mut i: usize = 0;
        while i < n
            invariant
                i <= n,
                n == self.dir@.len(),
                nlink as int == link_count(self.dir@, ino, i as int),
                nlink <= i,
            decreases n - i,
        {
            if self.dir[i].inode == ino {
                nlink += 1;
            }
            i += 1;
        }
        let m = self.fd_table.len();
        let mut refd = false;
        let mut k: usize = 0;
        while k < m
            invariant
                k <= m,
                m == self.fd_table@.len(),
                refd == exists|j: int|
                    0 <= j < k && ((#[trigger] self.fd_table@[j]) matches Some(e) && e.inode == ino),
            decreases m - k,
        {
            match &self.fd_table[k] {
                Some(e) => {
                    if e.inode == ino {
                        refd = true;
                    }
                },
                None => {},
            }
            k += 1;
        }
        if nlink == 0 && !refd {
            proof {
                assert(!fd_references(self.fd_table@, ino));
            }
            self.inodes[ino] = None;
            proof {
                assert forall|j: int|
                    0 <= j < self.dir@.len() implies (#[trigger] self.dir@[j]).inode
                    < self.inodes@.len() && self.inodes@[self.dir@[j].inode as int] is Some by {
                    lemma_link_count_absent(self.dir@, ino, self.dir@.len() as int, j);
                }
                assert forall|j: int|
                    0 <= j < self.fd_table@.len() implies ((#[trigger] self.fd_table@[j]) matches
                    Some(e) ==> e.inode < self.inodes@.len() && self.inodes@[e.inode as int]
                        is Some) by {
                    if self.fd_table@[j] is Some {
                        assert(self.fd_table@[j]->Some_0.inode != ino);
                    }
                }
            }
        }
        0
    }
}

/// Link counts never go negative.
proof fn lemma_link_count_nonneg(dir: Seq<DirEntry>, ino: usize, n: int)
    ensures
        link_count(dir, ino, n) >= 0,
    decreases n,
{
    if n > 0 {
        lemma_link_count_nonneg(dir, ino, n - 1);
    }
}

/// A directory whose link count for an inode is zero has no entry for it.
proof fn lemma_link_count_absent(dir: Seq<DirEntry>, ino: usize, n: int, j: int)
    requires
        link_count(dir, ino, n) == 0,
        0 <= j < n,
    ensures
        dir[j].inode != ino,
    decreases n,
{
    lemma_link_count_nonneg(dir, ino, n - 1);
    if j < n - 1 {
        lemma_link_count_absent(dir, ino, n - 1, j);
    }
}

/// Byte-for-byte copy of a path or buffer.
fn clone_bytes(v: &Vec<u8>) -> (r: Vec<u8>)
    ensures
        r@ == v@,
{
    let mut out: Vec<u8> = Vec::new();
    let n = v.len();
    let mut i: usize = 0;
    while i < n
        invariant
            i <= n,
            n == v@.len(),
            out@ == v@.subrange(0, i as int),
        decreases n - i,
    {
        out.push(v[i]);
        proof {
            assert(out@ =~= v@.subrange(0, i + 1));
        }
        i += 1;
    }
    proof {
        assert(out@ =~= v@);
    }
    out
}

} // verus!
