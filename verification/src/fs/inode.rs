//! The inode store behind disk files: a flat root directory of named links
//! to inodes, each inode carrying its live link count and its contents.

use crate::fs::{io_extends, File, IoState, IoView, StatMode};
use crate::slots::{filled, find_first_none, first_none, lemma_first_none};
use vstd::prelude::*;

verus! {

/// One inode: what it is, how many directory entries name it, what it holds.
pub struct Inode {
    pub mode: StatMode,
    pub nlink: u32,
    pub data: Vec<u8>,
}

/// Mathematical model of an [`Inode`].
pub struct InodeView {
    pub mode: StatMode,
    pub nlink: u32,
    pub data: Seq<u8>,
}

impl View for Inode {
    type V = InodeView;

    open spec fn view(&self) -> InodeView {
        InodeView { mode: self.mode, nlink: self.nlink, data: self.data@ }
    }
}

/// One entry of the root directory: a name and the inode it links to.
pub struct DirEntry {
    pub name: Vec<u8>,
    pub ino: u32,
}

/// Mathematical model of a [`DirEntry`].
pub struct EntryView {
    pub name: Seq<u8>,
    pub ino: u32,
}

impl View for DirEntry {
    type V = EntryView;

    open spec fn view(&self) -> EntryView {
        EntryView { name: self.name@, ino: self.ino }
    }
}

/// The inode store. Inode numbers index `inodes`; number 0 is the root
/// directory, every other inode is a regular file.
pub struct FileSystem {
    pub inodes: Vec<Inode>,
    pub entries: Vec<DirEntry>,
}

/// Mathematical model of a [`FileSystem`].
pub struct FsView {
    pub inodes: Seq<InodeView>,
    pub entries: Seq<EntryView>,
}

impl View for FileSystem {
    type V = FsView;

    open spec fn view(&self) -> FsView {
        FsView {
            inodes: Seq::new(self.inodes@.len(), |i: int| self.inodes@[i]@),
            entries: Seq::new(self.entries@.len(), |i: int| self.entries@[i]@),
        }
    }
}

/// The path of the root directory: a single slash.
pub open spec fn root_path() -> Seq<u8> {
    seq![47u8]
}

/// Whether the directory holds an entry called `name`.
pub open spec fn has_entry(entries: Seq<EntryView>, name: Seq<u8>) -> bool {
    exists|i: int| 0 <= i < entries.len() && (#[trigger] entries[i]).name == name
}

/// Position of the entry called `name` (meaningful when `has_entry`).
pub open spec fn entry_index(entries: Seq<EntryView>, name: Seq<u8>) -> int {
    choose|i: int| 0 <= i < entries.len() && (#[trigger] entries[i]).name == name
}

/// The inode that `path` names, if any.
pub open spec fn resolve(fs: FsView, path: Seq<u8>) -> Option<u32> {
    if path == root_path() {
        Some(0u32)
    } else if has_entry(fs.entries, path) {
        Some(fs.entries[entry_index(fs.entries, path)].ino)
    } else {
        None
    }
}

/// Number of directory entries that link to inode `ino`.
pub open spec fn link_count(entries: Seq<EntryView>, ino: u32) -> nat
    decreases entries.len(),
{
    if entries.len() == 0 {
        0
    } else {
        link_count(entries.drop_last(), ino) + if entries.last().ino == ino {
            1nat
        } else {
            0nat
        }
    }
}

/// The invariant of the inode store: inode 0 is the root directory, all
/// others are files; entries have distinct names and link to existing
/// files; and every file's link count is the number of entries naming it.
pub open spec fn fs_wf(fs: FsView) -> bool {
    &&& 1 <= fs.inodes.len() <= u32::MAX
    &&& fs.inodes[0].mode == StatMode::Dir
    &&& forall|i: int|
        1 <= i < fs.inodes.len() ==> (#[trigger] fs.inodes[i]).mode == StatMode::File
            && fs.inodes[i].nlink == link_count(fs.entries, i as u32)
    &&& forall|k: int|
        0 <= k < fs.entries.len() ==> 1 <= (#[trigger] fs.entries[k]).ino < fs.inodes.len()
    &&& forall|a: int, b: int|
        0 <= a < b < fs.entries.len() ==> (#[trigger] fs.entries[a]).name != (
        #[trigger] fs.entries[b]).name
}

/// Adding an entry raises the link count of the inode it names by one.
pub proof fn lemma_link_count_push(entries: Seq<EntryView>, e: EntryView, ino: u32)
    ensures
        link_count(entries.push(e), ino) == link_count(entries, ino) + if e.ino == ino {
            1nat
        } else {
            0nat
        },
{
    assert(entries.push(e).drop_last() =~= entries);
}

/// Removing an entry lowers the link count of the inode it named by one.
pub proof fn lemma_link_count_remove(entries: Seq<EntryView>, i: int, ino: u32)
    requires
        0 <= i < entries.len(),
    ensures
        link_count(entries, ino) == link_count(entries.remove(i), ino) + if entries[i].ino == ino {
            1nat
        } else {
            0nat
        },
    decreases entries.len(),
{
    if i == entries.len() - 1 {
        assert(entries.remove(i) =~= entries.drop_last());
    } else {
        lemma_link_count_remove(entries.drop_last(), i, ino);
        assert(entries.remove(i).drop_last() =~= entries.drop_last().remove(i));
        assert(entries.remove(i).last() == entries.last());
    }
}

/// An inode that no entry names has link count zero.
pub proof fn lemma_link_count_zero(entries: Seq<EntryView>, ino: u32)
    requires
        forall|k: int| 0 <= k < entries.len() ==> (#[trigger] entries[k]).ino != ino,
    ensures
        link_count(entries, ino) == 0,
    decreases entries.len(),
{
    if entries.len() > 0 {
        assert(entries.last() == entries[entries.len() - 1]);
        let d = entries.drop_last();
        assert forall|k: int| 0 <= k < d.len() implies (#[trigger] d[k]).ino != ino by {
            assert(d[k] == entries[k]);
        }
        lemma_link_count_zero(d, ino);
    }
}

/// With distinct names, an entry is found at one position only.
pub proof fn lemma_entry_unique(fs: FsView, i: int)
    requires
        fs_wf(fs),
        0 <= i < fs.entries.len(),
    ensures
        has_entry(fs.entries, fs.entries[i].name),
        entry_index(fs.entries, fs.entries[i].name) == i,
{
    let j = entry_index(fs.entries, fs.entries[i].name);
    if j < i {
        assert(fs.entries[j].name != fs.entries[i].name);
    } else if i < j {
        assert(fs.entries[i].name != fs.entries[j].name);
    }
}

/// The flags of an `open` call, as a bit mask: bit 0 asks for write-only
/// access, bit 1 for read-write access (neither: read-only), bit 9 creates
/// the file if it is missing, bit 10 truncates it.
#[derive(Clone, Copy, Debug, PartialEq, Eq, Structural)]
pub struct OpenFlags {
    pub bits: u32,
}

/// Read-only access: no flag set.
pub const RDONLY: u32 = 0;

/// Write-only access.
pub const WRONLY: u32 = 1;

/// Read-write access.
pub const RDWR: u32 = 2;

/// Create the file if it is missing.
pub const CREATE: u32 = 512;

/// Truncate the file on open.
pub const TRUNC: u32 = 1024;

/// Every recognised flag.
pub const ALL_FLAGS: u32 = 1539;

impl OpenFlags {
    /// Whether the flags grant read access.
    pub open spec fn is_read(self) -> bool {
        self.bits & WRONLY == 0
    }

    /// Whether the flags grant write access.
    pub open spec fn is_write(self) -> bool {
        self.bits & (WRONLY | RDWR) != 0
    }

    /// Whether a missing file is to be created.
    pub open spec fn is_create(self) -> bool {
        self.bits & CREATE != 0
    }

    /// Whether the file is to be emptied on open.
    pub open spec fn is_trunc(self) -> bool {
        self.bits & TRUNC != 0
    }

    /// Accepts a bit mask made of recognised flags only.
    pub fn from_bits(bits: u32) -> (r: Option<OpenFlags>)
        ensures
            r is Some <==> bits & !ALL_FLAGS == 0,
            r is Some ==> r->0.bits == bits,
    {
        if bits & !ALL_FLAGS == 0 {
            Some(OpenFlags { bits })
        } else {
            None
        }
    }

    /// The access the flags grant, as `(readable, writable)`.
    pub fn read_write(&self) -> (rw: (bool, bool))
        ensures
            rw.0 == self.is_read(),
            rw.1 == self.is_write(),
    {
        (self.bits & WRONLY == 0, self.bits & (WRONLY | RDWR) != 0)
    }

    /// Whether a missing file is to be created.
    pub fn create(&self) -> (r: bool)
        ensures
            r == self.is_create(),
    {
        self.bits & CREATE != 0
    }

    /// Whether the file is to be emptied on open.
    pub fn truncate(&self) -> (r: bool)
        ensures
            r == self.is_trunc(),
    {
        self.bits & TRUNC != 0
    }
}

/// A handle to an open disk file: the inode it refers to, the access it
/// was opened with, and the slot of the devices that holds the position of
/// the next read or write. Copies of a handle share that position.
#[derive(Clone, Copy, Debug, PartialEq, Eq, Structural)]
pub struct OSInode {
    pub readable: bool,
    pub writable: bool,
    pub ino: u32,
    pub slot: usize,
}

/// The handle that a successful `open` of inode `ino` returns.
pub open spec fn fresh_handle(flags: OpenFlags, ino: u32, slot: usize) -> OSInode {
    OSInode { readable: flags.is_read(), writable: flags.is_write(), ino, slot }
}

/// Whether the inode store lets `path` be opened: the path names a file,
/// or names nothing and a file can be created.
pub open spec fn can_open(fs: FsView, path: Seq<u8>, flags: OpenFlags) -> bool {
    match resolve(fs, path) {
        Some(ino) => fs.inodes[ino as int].mode == StatMode::File,
        None => flags.is_create() && fs.inodes.len() < u32::MAX,
    }
}

/// The inode that `open` opens (meaningful when `can_open`).
pub open spec fn opened_ino(fs: FsView, path: Seq<u8>) -> u32 {
    match resolve(fs, path) {
        Some(ino) => ino,
        None => fs.inodes.len() as u32,
    }
}

/// The inode store after `open`.
pub open spec fn open_fs(fs: FsView, path: Seq<u8>, flags: OpenFlags) -> FsView {
    if can_open(fs, path, flags) {
        match resolve(fs, path) {
            Some(ino) => if flags.is_trunc() {
                FsView {
                    inodes: fs.inodes.update(
                        ino as int,
                        InodeView { data: Seq::empty(), ..fs.inodes[ino as int] },
                    ),
                    ..fs
                }
            } else {
                fs
            },
            None => FsView {
                inodes: fs.inodes.push(
                    InodeView { mode: StatMode::File, nlink: 1, data: Seq::empty() },
                ),
                entries: fs.entries.push(EntryView { name: path, ino: fs.inodes.len() as u32 }),
            },
        }
    } else {
        fs
    }
}

/// Whether `open` succeeds: the inode store lets the path be opened, and
/// a slot is left for the position.
pub open spec fn open_succeeds(io: IoView, path: Seq<u8>, flags: OpenFlags) -> bool {
    can_open(io.fs, path, flags) && first_none(io.offsets) < usize::MAX
}

/// The handle that `open` returns: it stands at the start of the file,
/// in the lowest free slot.
pub open spec fn open_handle(io: IoView, path: Seq<u8>, flags: OpenFlags) -> Option<OSInode> {
    if open_succeeds(io, path, flags) {
        Some(fresh_handle(flags, opened_ino(io.fs, path), first_none(io.offsets) as usize))
    } else {
        None
    }
}

/// The devices after `open`.
pub open spec fn open_io(io: IoView, path: Seq<u8>, flags: OpenFlags) -> IoView {
    if open_succeeds(io, path, flags) {
        IoView { fs: open_fs(io.fs, path, flags), offsets: filled(io.offsets, 0usize), ..io }
    } else {
        io
    }
}

/// Whether `create_link` succeeds: the old path names a file whose link
/// count can grow, and the new path names nothing.
pub open spec fn link_succeeds(fs: FsView, old_path: Seq<u8>, new_path: Seq<u8>) -> bool {
    &&& old_path != root_path()
    &&& has_entry(fs.entries, old_path)
    &&& resolve(fs, new_path) is None
    &&& fs.inodes[resolve(fs, old_path)->0 as int].nlink < u32::MAX
}

/// The inode store after `create_link`.
pub open spec fn link_fs(fs: FsView, old_path: Seq<u8>, new_path: Seq<u8>) -> FsView {
    if link_succeeds(fs, old_path, new_path) {
        let ino = resolve(fs, old_path)->0;
        FsView {
            inodes: fs.inodes.update(
                ino as int,
                InodeView { nlink: (fs.inodes[ino as int].nlink + 1) as u32, ..fs.inodes[ino as int] },
            ),
            entries: fs.entries.push(EntryView { name: new_path, ino }),
        }
    } else {
        fs
    }
}

/// Whether `delete_link` succeeds: the path names a file.
pub open spec fn unlink_succeeds(fs: FsView, path: Seq<u8>) -> bool {
    path != root_path() && has_entry(fs.entries, path)
}

/// The inode store after `delete_link`.
pub open spec fn unlink_fs(fs: FsView, path: Seq<u8>) -> FsView {
    if unlink_succeeds(fs, path) {
        let ino = resolve(fs, path)->0;
        FsView {
            inodes: fs.inodes.update(
                ino as int,
                InodeView { nlink: (fs.inodes[ino as int].nlink - 1) as u32, ..fs.inodes[ino as int] },
            ),
            entries: fs.entries.remove(entry_index(fs.entries, path)),
        }
    } else {
        fs
    }
}

/// Decides whether two byte strings are equal.
pub fn bytes_eq(a: &Vec<u8>, b: &Vec<u8>) -> (r: bool)
    ensures
        r == (a@ == b@),
{
    if a.len() != b.len() {
        return false;
    }
    let mut i: usize = 0;
    while i < a.len()
        invariant
            a@.len() == b@.len(),
            i <= a@.len(),
            forall|k: int| 0 <= k < i ==> a@[k] == b@[k],
        decreases a@.len() - i,
    {
        if a[i] != b[i] {
            return false;
        }
        i += 1;
    }
    assert(a@ =~= b@);
    true
}

/// Decides whether `path` is the path of the root directory.
pub fn is_root_path(path: &Vec<u8>) -> (r: bool)
    ensures
        r == (path@ == root_path()),
{
    if path.len() == 1 && path[0] == 47 {
        assert(path@ =~= root_path());
        true
    } else {
        assert(root_path().len() == 1 && root_path()[0] == 47u8);
        false
    }
}

impl FileSystem {
    /// The invariant of the inode store.
    pub open spec fn wf(&self) -> bool {
        fs_wf(self@)
    }

    /// An inode store that holds the root directory and no file.
    pub fn new() -> (fs: FileSystem)
        ensures
            fs.wf(),
            fs@.entries == Seq::<EntryView>::empty(),
            fs@.inodes == seq![InodeView { mode: StatMode::Dir, nlink: 1, data: Seq::empty() }],
    {
        let mut inodes: Vec<Inode> = Vec::new();
        inodes.push(Inode { mode: StatMode::Dir, nlink: 1, data: Vec::new() });
        let fs = FileSystem { inodes, entries: Vec::new() };
        assert(fs@.entries =~= Seq::<EntryView>::empty());
        assert(fs@.inodes =~= seq![
            InodeView { mode: StatMode::Dir, nlink: 1, data: Seq::empty() },
        ]);
        fs
    }

    /// Position of the directory entry called `name`.
    pub fn find_entry(&self, name: &Vec<u8>) -> (r: Option<usize>)
        requires
            self.wf(),
        ensures
            r is Some <==> has_entry(self@.entries, name@),
            r is Some ==> r->0 == entry_index(self@.entries, name@) && r->0 < self@.entries.len(),
    {
        let mut i: usize = 0;
        while i < self.entries.len()
            invariant
                self.wf(),
                i <= self.entries@.len(),
                forall|k: int| 0 <= k < i ==> (#[trigger] self@.entries[k]).name != name@,
            decreases self.entries@.len() - i,
        {
            if bytes_eq(&self.entries[i].name, name) {
                proof {
                    assert(self@.entries[i as int].name == name@);
                    lemma_entry_unique(self@, i as int);
                }
                return Some(i);
            }
            i += 1;
        }
        None
    }

    /// The inode that `path` names, if any.
    pub fn lookup(&self, path: &Vec<u8>) -> (r: Option<u32>)
        requires
            self.wf(),
        ensures
            r == resolve(self@, path@),
            r is Some ==> r->0 < self@.inodes.len(),
    {
        if is_root_path(path) {
            return Some(0);
        }
        match self.find_entry(path) {
            Some(i) => {
                assert(self@.entries[i as int] == self.entries@[i as int]@);
                Some(self.entries[i].ino)
            },
            None => None,
        }
    }
}

/// Opens the file called `path`.
///
/// An existing file is opened, and emptied first if the flags ask for
/// truncation; a missing one is created if the flags ask for creation.
/// The handle stands at the start of the file. Fails, changing nothing,
/// when the path names the root directory, or names nothing and cannot
/// be or is not to be created, or no slot is left for the position.
pub fn open_file(io: &mut IoState, path: &Vec<u8>, flags: OpenFlags) -> (r: Option<OSInode>)
    requires
        old(io).wf(),
    ensures
        final(io).wf(),
        final(io)@ == open_io(old(io)@, path@, flags),
        r == open_handle(old(io)@, path@, flags),
        r is Some <==> open_succeeds(old(io)@, path@, flags),
        r is Some ==> r->0.valid(final(io)@),
        io_extends(old(io)@, final(io)@),
{
    let (readable, writable) = flags.read_write();
    let slot = find_first_none(&io.offsets);
    if slot == usize::MAX {
        return None;
    }
    proof {
        lemma_open_wf(old(io)@.fs, path@, flags);
        lemma_first_none(old(io)@.offsets);
    }
    let ino = match io.fs.lookup(path) {
        Some(ino) => {
            let idx = ino as usize;
            assert(io@.fs.inodes[idx as int] == io.fs.inodes@[idx as int]@);
            match io.fs.inodes[idx].mode {
                StatMode::File => {},
                _ => {
                    return None;
                },
            }
            if flags.truncate() {
                io.fs.inodes[idx].data = Vec::new();
                proof {
                    let o = old(io)@.fs;
                    assert(io@.fs.entries =~= o.entries);
                    assert(io@.fs.inodes =~= open_fs(o, path@, flags).inodes);
                }
            }
            ino
        },
        None => {
            if !flags.create() || io.fs.inodes.len() >= u32::MAX as usize {
                return None;
            }
            let ino = io.fs.inodes.len() as u32;
            let name = path.clone();
            assert(name@ =~= path@);
            io.fs.inodes.push(Inode { mode: StatMode::File, nlink: 1, data: Vec::new() });
            io.fs.entries.push(DirEntry { name, ino });
            proof {
                let o = old(io)@.fs;
                assert(io@.fs.entries =~= open_fs(o, path@, flags).entries);
                assert(io@.fs.inodes =~= open_fs(o, path@, flags).inodes);
            }
            ino
        },
    };
    if slot == io.offsets.len() {
        io.offsets.push(Some(0));
    } else {
        io.offsets[slot] = Some(0);
    }
    assert(io@.offsets =~= filled(old(io)@.offsets, 0usize));
    Some(OSInode { readable, writable, ino, slot })
}

/// Gives the file called `old_path` the additional name `new_path`.
///
/// Returns 0 on success and -1, changing nothing, when the old path names
/// no file, the new path is taken, or the link count cannot grow.
pub fn create_link(fs: &mut FileSystem, old_path: &Vec<u8>, new_path: &Vec<u8>) -> (r: isize)
    requires
        old(fs).wf(),
    ensures
        final(fs).wf(),
        r == if link_succeeds(old(fs)@, old_path@, new_path@) {
            0isize
        } else {
            -1isize
        },
        final(fs)@ == link_fs(old(fs)@, old_path@, new_path@),
        final(fs)@.inodes.len() == old(fs)@.inodes.len(),
{
    if is_root_path(old_path) {
        return -1;
    }
    let i = match fs.find_entry(old_path) {
        Some(i) => i,
        None => {
            return -1;
        },
    };
    if fs.lookup(new_path).is_some() {
        return -1;
    }
    assert(fs@.entries[i as int] == fs.entries@[i as int]@);
    let ino = fs.entries[i].ino;
    let idx = ino as usize;
    assert(fs@.inodes[idx as int] == fs.inodes@[idx as int]@);
    if fs.inodes[idx].nlink == u32::MAX {
        return -1;
    }
    let name = new_path.clone();
    assert(name@ =~= new_path@);
    fs.inodes[idx].nlink = fs.inodes[idx].nlink + 1;
    fs.entries.push(DirEntry { name, ino });
    proof {
        let o = old(fs)@;
        lemma_link_wf(o, old_path@, new_path@);
        assert(fs@.entries =~= link_fs(o, old_path@, new_path@).entries);
        assert(fs@.inodes =~= link_fs(o, old_path@, new_path@).inodes);
    }
    0
}

/// Removes the directory entry called `path` and lowers the link count of
/// the file it named by one.
///
/// Returns 0 on success and -1, changing nothing, when the path names no file.
pub fn delete_link(fs: &mut FileSystem, path: &Vec<u8>) -> (r: isize)
    requires
        old(fs).wf(),
    ensures
        final(fs).wf(),
        r == if unlink_succeeds(old(fs)@, path@) {
            0isize
        } else {
            -1isize
        },
        final(fs)@ == unlink_fs(old(fs)@, path@),
        final(fs)@.inodes.len() == old(fs)@.inodes.len(),
{
    if is_root_path(path) {
        return -1;
    }
    let i = match fs.find_entry(path) {
        Some(i) => i,
        None => {
            return -1;
        },
    };
    assert(fs@.entries[i as int] == fs.entries@[i as int]@);
    let ino = fs.entries[i].ino;
    let idx = ino as usize;
    assert(fs@.inodes[idx as int] == fs.inodes@[idx as int]@);
    proof {
        lemma_link_count_remove(fs@.entries, i as int, ino);
    }
    fs.entries.remove(i);
    fs.inodes[idx].nlink = fs.inodes[idx].nlink - 1;
    proof {
        let o = old(fs)@;
        lemma_unlink_wf(o, path@);
        assert(fs@.entries =~= unlink_fs(o, path@).entries);
        assert(fs@.inodes =~= unlink_fs(o, path@).inodes);
    }
    0
}

/// Number of bytes that a read of up to `len` bytes at `offset` takes from
/// a file of `size` bytes.
pub open spec fn read_len(size: int, offset: int, len: int) -> int {
    if offset >= size {
        0
    } else if len < size - offset {
        len
    } else {
        size - offset
    }
}

/// The contents of a file after `src` was written at `offset`: the file
/// grows as far as the write reaches, a gap between its old end and
/// `offset` reads as zeros, and an empty write changes nothing.
pub open spec fn write_at(old_data: Seq<u8>, offset: int, src: Seq<u8>) -> Seq<u8> {
    if src.len() == 0 {
        old_data
    } else {
        Seq::new(
            if old_data.len() < offset + src.len() {
                (offset + src.len()) as nat
            } else {
                old_data.len()
            },
            |k: int|
                if offset <= k < offset + src.len() {
                    src[k - offset]
                } else if k < old_data.len() {
                    old_data[k]
                } else {
                    0u8
                },
        )
    }
}

/// Number of bytes that a write of `n` bytes at `offset` accepts: all of
/// them, unless the file position would leave the range of addresses.
pub open spec fn write_len(offset: int, n: int) -> int {
    if offset + n <= usize::MAX {
        n
    } else {
        0
    }
}

impl OSInode {
    /// The position at which the handle stands.
    pub open spec fn position(&self, io: IoView) -> usize {
        io.offsets[self.slot as int]->0
    }

    /// Number of bytes that a read of up to `len` bytes through the
    /// handle gives: none if it is not open for reading.
    pub open spec fn read_count(&self, io: IoView, len: int) -> int {
        if self.readable {
            read_len(io.fs.inodes[self.ino as int].data.len() as int, self.position(io) as int, len)
        } else {
            0
        }
    }

    /// Number of bytes that a write of `n` bytes through the handle
    /// takes: none if it is not open for writing.
    pub open spec fn write_count(&self, io: IoView, n: int) -> int {
        if self.writable {
            write_len(self.position(io) as int, n)
        } else {
            0
        }
    }
}

impl File for OSInode {
    open spec fn is_readable(&self) -> bool {
        self.readable
    }

    open spec fn is_writable(&self) -> bool {
        self.writable
    }

    open spec fn valid(&self, io: IoView) -> bool {
        &&& 1 <= self.ino < io.fs.inodes.len()
        &&& self.slot < io.offsets.len()
        &&& io.offsets[self.slot as int] is Some
    }

    /// The bytes of the file from the handle's position on.
    open spec fn read_data(&self, io: IoView, len: int) -> Seq<u8> {
        let data = io.fs.inodes[self.ino as int].data;
        let n = self.read_count(io, len);
        if n == 0 {
            Seq::empty()
        } else {
            data.subrange(self.position(io) as int, self.position(io) + n)
        }
    }

    open spec fn after_read(&self, io: IoView, len: int) -> OSInode {
        *self
    }

    /// The position moves past what was read.
    open spec fn io_after_read(&self, io: IoView, len: int) -> IoView {
        let n = self.read_count(io, len);
        IoView {
            offsets: io.offsets.update(self.slot as int, Some((self.position(io) + n) as usize)),
            ..io
        }
    }

    open spec fn written(&self, io: IoView, data: Seq<u8>) -> int {
        self.write_count(io, data.len() as int)
    }

    open spec fn after_write(&self, io: IoView, data: Seq<u8>) -> OSInode {
        *self
    }

    /// The file holds `data` at the handle's position, and the position
    /// moves past it.
    open spec fn io_after_write(&self, io: IoView, data: Seq<u8>) -> IoView {
        if self.write_count(io, data.len() as int) == 0 {
            io
        } else {
            let inode = io.fs.inodes[self.ino as int];
            IoView {
                fs: FsView {
                    inodes: io.fs.inodes.update(
                        self.ino as int,
                        InodeView {
                            data: write_at(inode.data, self.position(io) as int, data),
                            ..inode
                        },
                    ),
                    ..io.fs
                },
                offsets: io.offsets.update(
                    self.slot as int,
                    Some((self.position(io) + data.len()) as usize),
                ),
                ..io
            }
        }
    }

    open spec fn link_count(&self, io: IoView) -> u32 {
        io.fs.inodes[self.ino as int].nlink
    }

    open spec fn mode(&self, io: IoView) -> StatMode {
        io.fs.inodes[self.ino as int].mode
    }

    open spec fn inode_number(&self) -> u32 {
        self.ino
    }

    fn readable(&self) -> (r: bool) {
        self.readable
    }

    fn writable(&self) -> (r: bool) {
        self.writable
    }

    fn read(&mut self, io: &mut IoState, len: usize) -> (out: Vec<u8>) {
        let idx = self.ino as usize;
        assert(io@.fs.inodes[idx as int] == io.fs.inodes@[idx as int]@);
        let size = io.fs.inodes[idx].data.len();
        let offset = match io.offsets[self.slot] {
            Some(offset) => offset,
            None => 0,
        };
        let n: usize = if !self.readable || offset >= size {
            0
        } else if len < size - offset {
            len
        } else {
            size - offset
        };
        let mut out: Vec<u8> = Vec::new();
        let mut j: usize = 0;
        assert(n > 0 ==> out@ =~= io.fs.inodes@[idx as int].data@.subrange(
            offset as int,
            offset as int,
        ));
        while j < n
            invariant
                *io == *old(io),
                idx < io.fs.inodes@.len(),
                size == io.fs.inodes@[idx as int].data@.len(),
                j <= n,
                n > 0 ==> offset + n <= size,
                n == 0 ==> out@ == Seq::<u8>::empty(),
                n > 0 ==> out@ == io.fs.inodes@[idx as int].data@.subrange(
                    offset as int,
                    offset + j,
                ),
            decreases n - j,
        {
            out.push(io.fs.inodes[idx].data[offset + j]);
            j += 1;
            assert(out@ =~= io.fs.inodes@[idx as int].data@.subrange(offset as int, offset + j));
        }
        io.offsets[self.slot] = Some(offset + n);
        out
    }

    fn write(&mut self, io: &mut IoState, data: &Vec<u8>) -> (n: usize) {
        let idx = self.ino as usize;
        assert(io@.fs.inodes[idx as int] == io.fs.inodes@[idx as int]@);
        let n = data.len();
        let offset = match io.offsets[self.slot] {
            Some(offset) => offset,
            None => 0,
        };
        if !self.writable || n == 0 || offset > usize::MAX - n {
            return 0;
        }
        let size = io.fs.inodes[idx].data.len();
        let end = offset + n;
        let new_size = if size < end {
            end
        } else {
            size
        };
        let ghost target = write_at(io.fs.inodes@[idx as int].data@, offset as int, data@);
        let mut buf: Vec<u8> = Vec::new();
        let mut k: usize = 0;
        while k < new_size
            invariant
                *io == *old(io),
                idx < io.fs.inodes@.len(),
                size == io.fs.inodes@[idx as int].data@.len(),
                n == data@.len(),
                n > 0,
                end == offset + n,
                new_size == target.len(),
                target == write_at(io.fs.inodes@[idx as int].data@, offset as int, data@),
                k <= new_size,
                buf@ == target.subrange(0, k as int),
            decreases new_size - k,
        {
            let b = if offset <= k && k < end {
                data[k - offset]
            } else if k < size {
                io.fs.inodes[idx].data[k]
            } else {
                0u8
            };
            buf.push(b);
            k += 1;
            assert(buf@ =~= target.subrange(0, k as int));
        }
        assert(buf@ =~= target);
        io.fs.inodes[idx].data = buf;
        io.offsets[self.slot] = Some(end);
        proof {
            let o = old(io)@;
            let inode = o.fs.inodes[idx as int];
            assert(io@.fs.entries =~= o.fs.entries);
            assert(io@.fs.inodes =~= o.fs.inodes.update(
                idx as int,
                InodeView { data: target, ..inode },
            ));
            assert forall|i: int| 1 <= i < io@.fs.inodes.len() implies (
            #[trigger] io@.fs.inodes[i]).mode == StatMode::File && io@.fs.inodes[i].nlink
                == link_count(io@.fs.entries, i as u32) by {
                assert(o.fs.inodes[i].mode == StatMode::File);
            }
        }
        n
    }

    fn nlinks(&self, io: &IoState) -> (n: u32) {
        assert(io@.fs.inodes[self.ino as int] == io.fs.inodes@[self.ino as int]@);
        io.fs.inodes[self.ino as usize].nlink
    }

    fn get_mode(&self, io: &IoState) -> (m: StatMode) {
        assert(io@.fs.inodes[self.ino as int] == io.fs.inodes@[self.ino as int]@);
        io.fs.inodes[self.ino as usize].mode
    }

    fn get_ino(&self) -> (n: u32) {
        self.ino
    }
}

/// What `resolve` finds at a given position of the directory.
pub proof fn lemma_resolve_entry(fs: FsView, i: int)
    requires
        fs_wf(fs),
        0 <= i < fs.entries.len(),
        fs.entries[i].name != root_path(),
    ensures
        resolve(fs, fs.entries[i].name) == Some(fs.entries[i].ino),
{
    lemma_entry_unique(fs, i);
}

/// A new link keeps the invariant of the inode store.
pub proof fn lemma_link_wf(fs: FsView, old_path: Seq<u8>, new_path: Seq<u8>)
    requires
        fs_wf(fs),
    ensures
        fs_wf(link_fs(fs, old_path, new_path)),
{
    if link_succeeds(fs, old_path, new_path) {
        let n = link_fs(fs, old_path, new_path);
        let ino = resolve(fs, old_path)->0;
        let e = EntryView { name: new_path, ino };
        let i = entry_index(fs.entries, old_path);
        assert(1 <= fs.entries[i].ino < fs.inodes.len());
        assert forall|k: int| 1 <= k < n.inodes.len() implies (#[trigger] n.inodes[k]).mode
            == StatMode::File && n.inodes[k].nlink == link_count(n.entries, k as u32) by {
            lemma_link_count_push(fs.entries, e, k as u32);
            assert(fs.inodes[k].mode == StatMode::File);
        }
        assert forall|a: int, b: int| 0 <= a < b < n.entries.len() implies (
        #[trigger] n.entries[a]).name != (#[trigger] n.entries[b]).name by {
            if b == fs.entries.len() {
                assert(fs.entries[a].name != new_path);
            } else {
                assert(fs.entries[a].name != fs.entries[b].name);
            }
        }
        assert forall|k: int| 0 <= k < n.entries.len() implies 1 <= (#[trigger] n.entries[k]).ino
            < n.inodes.len() by {
            if k < fs.entries.len() {
                assert(1 <= fs.entries[k].ino < fs.inodes.len());
            }
        }
    }
}

/// Removing a link keeps the invariant of the inode store.
pub proof fn lemma_unlink_wf(fs: FsView, path: Seq<u8>)
    requires
        fs_wf(fs),
    ensures
        fs_wf(unlink_fs(fs, path)),
{
    if unlink_succeeds(fs, path) {
        let n = unlink_fs(fs, path);
        let i = entry_index(fs.entries, path);
        let ino = fs.entries[i].ino;
        assert(1 <= fs.entries[i].ino < fs.inodes.len());
        lemma_link_count_remove(fs.entries, i, ino);
        assert forall|k: int| 1 <= k < n.inodes.len() implies (#[trigger] n.inodes[k]).mode
            == StatMode::File && n.inodes[k].nlink == link_count(n.entries, k as u32) by {
            lemma_link_count_remove(fs.entries, i, k as u32);
            assert(fs.inodes[k].mode == StatMode::File);
        }
        assert forall|a: int, b: int| 0 <= a < b < n.entries.len() implies (
        #[trigger] n.entries[a]).name != (#[trigger] n.entries[b]).name by {
            let a0 = if a < i { a } else { a + 1 };
            let b0 = if b < i { b } else { b + 1 };
            assert(n.entries[a] == fs.entries[a0]);
            assert(n.entries[b] == fs.entries[b0]);
        }
        assert forall|k: int| 0 <= k < n.entries.len() implies 1 <= (#[trigger] n.entries[k]).ino
            < n.inodes.len() by {
            let k0 = if k < i { k } else { k + 1 };
            assert(n.entries[k] == fs.entries[k0]);
        }
    }
}

/// Opening a file keeps the invariant of the inode store.
pub proof fn lemma_open_wf(fs: FsView, path: Seq<u8>, flags: OpenFlags)
    requires
        fs_wf(fs),
    ensures
        fs_wf(open_fs(fs, path, flags)),
{
    let n = open_fs(fs, path, flags);
    if can_open(fs, path, flags) {
        match resolve(fs, path) {
            Some(ino) => {
                if flags.is_trunc() {
                    assert forall|i: int| 1 <= i < n.inodes.len() implies (
                    #[trigger] n.inodes[i]).mode == StatMode::File && n.inodes[i].nlink
                        == link_count(n.entries, i as u32) by {
                        assert(fs.inodes[i].mode == StatMode::File);
                    }
                }
            },
            None => {
                let ino = fs.inodes.len() as u32;
                let e = EntryView { name: path, ino };
                assert forall|i: int| 1 <= i < n.inodes.len() implies (
                #[trigger] n.inodes[i]).mode == StatMode::File && n.inodes[i].nlink
                    == link_count(n.entries, i as u32) by {
                    lemma_link_count_push(fs.entries, e, i as u32);
                    if i == ino {
                        lemma_link_count_zero(fs.entries, ino);
                    } else {
                        assert(fs.inodes[i].mode == StatMode::File);
                    }
                }
                assert forall|a: int, b: int| 0 <= a < b < n.entries.len() implies (
                #[trigger] n.entries[a]).name != (#[trigger] n.entries[b]).name by {
                    if b == fs.entries.len() {
                        assert(fs.entries[a].name != path);
                    } else {
                        assert(fs.entries[a].name != fs.entries[b].name);
                    }
                }
                assert forall|k: int| 0 <= k < n.entries.len() implies 1 <= (
                #[trigger] n.entries[k]).ino < n.inodes.len() by {
                    if k < fs.entries.len() {
                        assert(1 <= fs.entries[k].ino < fs.inodes.len());
                    }
                }
            },
        }
    }
}

/// Linking a file under a second name and then removing its first name
/// leaves the second name resolving to the same inode, whose link count,
/// raised by one by the link, is lowered by exactly one by the removal.
pub proof fn lemma_link_then_unlink(fs: FsView, a: Seq<u8>, b: Seq<u8>)
    requires
        fs_wf(fs),
        link_succeeds(fs, a, b),
    ensures
        ({
            let ino = resolve(fs, a)->0;
            let linked = link_fs(fs, a, b);
            let unlinked = unlink_fs(linked, a);
            &&& resolve(linked, b) == Some(ino)
            &&& linked.inodes[ino as int].nlink == fs.inodes[ino as int].nlink + 1
            &&& unlink_succeeds(linked, a)
            &&& resolve(unlinked, b) == Some(ino)
            &&& unlinked.inodes[ino as int].nlink == linked.inodes[ino as int].nlink - 1
            &&& unlinked.inodes[ino as int].data == fs.inodes[ino as int].data
            &&& fs_wf(unlinked)
        }),
{
    let ino = resolve(fs, a)->0;
    let linked = link_fs(fs, a, b);
    let unlinked = unlink_fs(linked, a);
    let i = entry_index(fs.entries, a);
    let last = fs.entries.len() as int;
    assert(1 <= fs.entries[i].ino < fs.inodes.len());
    lemma_link_wf(fs, a, b);
    lemma_unlink_wf(linked, a);
    // the first name is where it was, the second name is last
    assert(linked.entries[i] == fs.entries[i]);
    assert(linked.entries[last].name == b);
    lemma_entry_unique(linked, i);
    assert(b != root_path());
    lemma_resolve_entry(linked, last);
    assert(a != b);
    assert(unlinked.entries == linked.entries.remove(i));
    assert(unlinked.entries[last - 1] == linked.entries[last]);
    lemma_resolve_entry(unlinked, last - 1);
}

/// The link count of a file is the number of names that it has now.
pub proof fn lemma_link_count_is_live(fs: FsView, ino: u32)
    requires
        fs_wf(fs),
        1 <= ino < fs.inodes.len(),
    ensures
        fs.inodes[ino as int].nlink == link_count(fs.entries, ino),
{
}

/// Writing to a freshly opened, empty file and reading it through a
/// second handle gives back what was written: as many bytes, the same
/// bytes, in the same order.
pub proof fn lemma_write_then_read(
    io: IoView,
    path: Seq<u8>,
    write_flags: OpenFlags,
    read_flags: OpenFlags,
    data: Seq<u8>,
)
    requires
        fs_wf(io.fs),
        data.len() <= usize::MAX,
        open_succeeds(io, path, write_flags),
        write_flags.is_write(),
        resolve(io.fs, path) is None || write_flags.is_trunc(),
        read_flags.is_read(),
        !read_flags.is_trunc(),
        first_none(filled(io.offsets, 0usize)) < usize::MAX,
    ensures
        ({
            let writer = open_handle(io, path, write_flags)->0;
            let opened = open_io(io, path, write_flags);
            let written = writer.io_after_write(opened, data);
            let reader = open_handle(written, path, read_flags)->0;
            let reopened = open_io(written, path, read_flags);
            &&& writer.is_writable()
            &&& writer.valid(opened)
            &&& writer.written(opened, data) == data.len()
            &&& open_succeeds(written, path, read_flags)
            &&& reader.is_readable()
            &&& reader.valid(reopened)
            &&& reader.ino == writer.ino
            &&& reader.read_data(reopened, data.len() as int) == data
        }),
{
    let writer = open_handle(io, path, write_flags)->0;
    let opened = open_io(io, path, write_flags);
    let written = writer.io_after_write(opened, data);
    let ino = writer.ino as int;
    lemma_open_wf(io.fs, path, write_flags);
    lemma_first_none(io.offsets);
    assert(path != root_path());
    assert(writer.valid(opened) && writer.position(opened) == 0);
    // the path names the file of the writer, which is empty
    assert(resolve(opened.fs, path) == Some(writer.ino) && opened.fs.inodes[ino].data
        == Seq::<u8>::empty() && 1 <= ino < opened.fs.inodes.len()) by {
        match resolve(io.fs, path) {
            Some(found) => {
                let i = entry_index(io.fs.entries, path);
                assert(1 <= io.fs.entries[i].ino < io.fs.inodes.len());
            },
            None => {
                let last = io.fs.entries.len() as int;
                assert(opened.fs.entries[last].name == path);
                lemma_resolve_entry(opened.fs, last);
            },
        }
    }
    assert(opened.fs.inodes[ino].mode == StatMode::File);
    assert(written.fs.entries == opened.fs.entries);
    assert(has_entry(opened.fs.entries, path));
    assert(resolve(written.fs, path) == Some(writer.ino));
    assert(written.fs.inodes[ino].data =~= data);
    // the reader gets a slot of its own
    lemma_first_none(opened.offsets);
    assert(first_none(written.offsets) == first_none(opened.offsets)) by {
        assert forall|k: int| 0 <= k < written.offsets.len() implies ((
        #[trigger] written.offsets[k]) is Some <==> opened.offsets[k] is Some) by {}
        crate::slots::lemma_first_none_is(written.offsets, first_none(opened.offsets));
    }
    lemma_first_none(written.offsets);
    let reopened = open_io(written, path, read_flags);
    assert(reopened.fs == written.fs);
    let reader = open_handle(written, path, read_flags)->0;
    assert(reader.valid(reopened) && reader.position(reopened) == 0);
    assert(reader.read_data(reopened, data.len() as int) =~= data);
}

} // verus!
