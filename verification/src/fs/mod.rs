//! Files as seen through descriptors: the interface shared by console
//! input, console output and disk files, and the `stat` record.

pub mod inode;
pub mod stdio;

use crate::fs::inode::{fs_wf, EntryView, FileSystem, FsView, InodeView, OSInode};
use crate::fs::stdio::{Stdin, Stdout};
use crate::wire::{le_bytes, lemma_le_bytes_len, push_le, push_zeros};
use vstd::prelude::*;

verus! {

/// What an inode is.
#[derive(Clone, Copy, Debug, PartialEq, Eq, Structural)]
pub enum StatMode {
    /// Neither a directory nor a regular file.
    Null,
    /// A directory.
    Dir,
    /// An ordinary regular file.
    File,
}

impl StatMode {
    /// The mode as the bit flags of the `stat` record.
    pub open spec fn spec_bits(self) -> u32 {
        match self {
            StatMode::Null => 0u32,
            StatMode::Dir => 0o040000u32,
            StatMode::File => 0o100000u32,
        }
    }

    /// The mode as the bit flags of the `stat` record.
    #[verifier::when_used_as_spec(spec_bits)]
    pub fn bits(self) -> (b: u32)
        ensures
            b == self.spec_bits(),
    {
        match self {
            StatMode::Null => 0u32,
            StatMode::Dir => 0o040000u32,
            StatMode::File => 0o100000u32,
        }
    }
}

/// The console: input that was typed and not yet read, and everything
/// that was printed.
pub struct Console {
    pub input: Vec<u8>,
    pub output: Vec<u8>,
}

/// The devices behind file handles: the inode store, the console, and
/// the positions of the open disk files.
///
/// A handle to a disk file names a slot of `offsets`. Handles that were
/// copied from one another, as by a fork, name the same slot and so share
/// one position; the slot is empty again when no descriptor names it.
pub struct IoState {
    pub fs: FileSystem,
    pub console: Console,
    pub offsets: Vec<Option<usize>>,
}

/// Mathematical model of an [`IoState`].
pub struct IoView {
    pub fs: FsView,
    pub input: Seq<u8>,
    pub output: Seq<u8>,
    pub offsets: Seq<Option<usize>>,
}

/// Whether the devices `n` hold every inode and every open position that
/// the devices `o` hold.
pub open spec fn io_extends(o: IoView, n: IoView) -> bool {
    &&& n.fs.inodes.len() >= o.fs.inodes.len()
    &&& n.offsets.len() >= o.offsets.len()
    &&& forall|s: int|
        0 <= s < o.offsets.len() && (#[trigger] o.offsets[s]) is Some ==> n.offsets[s] is Some
}

impl View for IoState {
    type V = IoView;

    open spec fn view(&self) -> IoView {
        IoView {
            fs: self.fs@,
            input: self.console.input@,
            output: self.console.output@,
            offsets: self.offsets@,
        }
    }
}

impl IoState {
    /// The invariant of the devices: that of the inode store.
    pub open spec fn wf(&self) -> bool {
        fs_wf(self@.fs)
    }

    /// An empty inode store, a silent console, and no open file.
    pub fn new() -> (io: IoState)
        ensures
            io.wf(),
            io@.fs.entries == Seq::<EntryView>::empty(),
            io@.fs.inodes == seq![InodeView { mode: StatMode::Dir, nlink: 1, data: Seq::empty() }],
            io@.input == Seq::<u8>::empty(),
            io@.output == Seq::<u8>::empty(),
            io@.offsets == Seq::<Option<usize>>::empty(),
    {
        IoState {
            fs: FileSystem::new(),
            console: Console { input: Vec::new(), output: Vec::new() },
            offsets: Vec::new(),
        }
    }
}

/// The interface shared by every kind of file.
///
/// What `read` and `write` return, and what they do to the handle and to
/// the devices, is given by the specification functions of each kind.
pub trait File: Sized {
    /// Whether the file may be read through this handle.
    spec fn is_readable(&self) -> bool;

    /// Whether the file may be written through this handle.
    spec fn is_writable(&self) -> bool;

    /// Whether the handle refers to something that exists in `io`.
    spec fn valid(&self, io: IoView) -> bool;

    /// The bytes that a read of up to `len` bytes returns.
    spec fn read_data(&self, io: IoView, len: int) -> Seq<u8>;

    /// The handle after a read of up to `len` bytes.
    spec fn after_read(&self, io: IoView, len: int) -> Self;

    /// The devices after a read of up to `len` bytes.
    spec fn io_after_read(&self, io: IoView, len: int) -> IoView;

    /// The number of bytes that a write of `data` accepts.
    spec fn written(&self, io: IoView, data: Seq<u8>) -> int;

    /// The handle after a write of `data`.
    spec fn after_write(&self, io: IoView, data: Seq<u8>) -> Self;

    /// The devices after a write of `data`.
    spec fn io_after_write(&self, io: IoView, data: Seq<u8>) -> IoView;

    /// The live number of hard links to the file.
    spec fn link_count(&self, io: IoView) -> u32;

    /// Whether the file is a directory, a regular file or neither.
    spec fn mode(&self, io: IoView) -> StatMode;

    /// The inode number of the file.
    spec fn inode_number(&self) -> u32;

    /// The file readable?
    fn readable(&self) -> (r: bool)
        ensures
            r == self.is_readable(),
    ;

    /// The file writable?
    fn writable(&self) -> (r: bool)
        ensures
            r == self.is_writable(),
    ;

    /// Reads up to `len` bytes from the file and returns them. A handle
    /// that is not readable gives nothing.
    fn read(&mut self, io: &mut IoState, len: usize) -> (out: Vec<u8>)
        requires
            old(io).wf(),
            old(self).valid(old(io)@),
        ensures
            final(io).wf(),
            out@ == old(self).read_data(old(io)@, len as int),
            out@.len() <= len,
            *final(self) == old(self).after_read(old(io)@, len as int),
            final(io)@ == old(self).io_after_read(old(io)@, len as int),
            io_extends(old(io)@, final(io)@),
            final(self).valid(final(io)@),
    ;

    /// Writes `data` to the file and returns the number of bytes written.
    /// A handle that is not writable takes nothing.
    fn write(&mut self, io: &mut IoState, data: &Vec<u8>) -> (n: usize)
        requires
            old(io).wf(),
            old(self).valid(old(io)@),
        ensures
            final(io).wf(),
            n == old(self).written(old(io)@, data@),
            n <= data@.len(),
            *final(self) == old(self).after_write(old(io)@, data@),
            final(io)@ == old(self).io_after_write(old(io)@, data@),
            io_extends(old(io)@, final(io)@),
            final(self).valid(final(io)@),
    ;

    /// The live number of hard links to the file.
    fn nlinks(&self, io: &IoState) -> (n: u32)
        requires
            io.wf(),
            self.valid(io@),
        ensures
            n == self.link_count(io@),
    ;

    /// Whether the file is a directory, a regular file or neither.
    fn get_mode(&self, io: &IoState) -> (m: StatMode)
        requires
            io.wf(),
            self.valid(io@),
        ensures
            m == self.mode(io@),
    ;

    /// The inode number of the file.
    fn get_ino(&self) -> (n: u32)
        ensures
            n == self.inode_number(),
    ;
}

/// An entry of a descriptor table: console input, console output or a
/// disk file.
#[derive(Clone, Copy, Debug, PartialEq, Eq, Structural)]
pub enum FileHandle {
    Stdin(Stdin),
    Stdout(Stdout),
    Inode(OSInode),
}

impl File for FileHandle {
    open spec fn is_readable(&self) -> bool {
        match *self {
            FileHandle::Stdin(f) => f.is_readable(),
            FileHandle::Stdout(f) => f.is_readable(),
            FileHandle::Inode(f) => f.is_readable(),
        }
    }

    open spec fn is_writable(&self) -> bool {
        match *self {
            FileHandle::Stdin(f) => f.is_writable(),
            FileHandle::Stdout(f) => f.is_writable(),
            FileHandle::Inode(f) => f.is_writable(),
        }
    }

    open spec fn valid(&self, io: IoView) -> bool {
        match *self {
            FileHandle::Stdin(f) => f.valid(io),
            FileHandle::Stdout(f) => f.valid(io),
            FileHandle::Inode(f) => f.valid(io),
        }
    }

    open spec fn read_data(&self, io: IoView, len: int) -> Seq<u8> {
        match *self {
            FileHandle::Stdin(f) => f.read_data(io, len),
            FileHandle::Stdout(f) => f.read_data(io, len),
            FileHandle::Inode(f) => f.read_data(io, len),
        }
    }

    open spec fn after_read(&self, io: IoView, len: int) -> FileHandle {
        match *self {
            FileHandle::Stdin(f) => FileHandle::Stdin(f.after_read(io, len)),
            FileHandle::Stdout(f) => FileHandle::Stdout(f.after_read(io, len)),
            FileHandle::Inode(f) => FileHandle::Inode(f.after_read(io, len)),
        }
    }

    open spec fn io_after_read(&self, io: IoView, len: int) -> IoView {
        match *self {
            FileHandle::Stdin(f) => f.io_after_read(io, len),
            FileHandle::Stdout(f) => f.io_after_read(io, len),
            FileHandle::Inode(f) => f.io_after_read(io, len),
        }
    }

    open spec fn written(&self, io: IoView, data: Seq<u8>) -> int {
        match *self {
            FileHandle::Stdin(f) => f.written(io, data),
            FileHandle::Stdout(f) => f.written(io, data),
            FileHandle::Inode(f) => f.written(io, data),
        }
    }

    open spec fn after_write(&self, io: IoView, data: Seq<u8>) -> FileHandle {
        match *self {
            FileHandle::Stdin(f) => FileHandle::Stdin(f.after_write(io, data)),
            FileHandle::Stdout(f) => FileHandle::Stdout(f.after_write(io, data)),
            FileHandle::Inode(f) => FileHandle::Inode(f.after_write(io, data)),
        }
    }

    open spec fn io_after_write(&self, io: IoView, data: Seq<u8>) -> IoView {
        match *self {
            FileHandle::Stdin(f) => f.io_after_write(io, data),
            FileHandle::Stdout(f) => f.io_after_write(io, data),
            FileHandle::Inode(f) => f.io_after_write(io, data),
        }
    }

    open spec fn link_count(&self, io: IoView) -> u32 {
        match *self {
            FileHandle::Stdin(f) => f.link_count(io),
            FileHandle::Stdout(f) => f.link_count(io),
            FileHandle::Inode(f) => f.link_count(io),
        }
    }

    open spec fn mode(&self, io: IoView) -> StatMode {
        match *self {
            FileHandle::Stdin(f) => f.mode(io),
            FileHandle::Stdout(f) => f.mode(io),
            FileHandle::Inode(f) => f.mode(io),
        }
    }

    open spec fn inode_number(&self) -> u32 {
        match *self {
            FileHandle::Stdin(f) => f.inode_number(),
            FileHandle::Stdout(f) => f.inode_number(),
            FileHandle::Inode(f) => f.inode_number(),
        }
    }

    fn readable(&self) -> (r: bool) {
        match self {
            FileHandle::Stdin(f) => f.readable(),
            FileHandle::Stdout(f) => f.readable(),
            FileHandle::Inode(f) => f.readable(),
        }
    }

    fn writable(&self) -> (r: bool) {
        match self {
            FileHandle::Stdin(f) => f.writable(),
            FileHandle::Stdout(f) => f.writable(),
            FileHandle::Inode(f) => f.writable(),
        }
    }

    fn read(&mut self, io: &mut IoState, len: usize) -> (out: Vec<u8>) {
        match self {
            FileHandle::Stdin(f) => f.read(io, len),
            FileHandle::Stdout(f) => f.read(io, len),
            FileHandle::Inode(f) => f.read(io, len),
        }
    }

    fn write(&mut self, io: &mut IoState, data: &Vec<u8>) -> (n: usize) {
        match self {
            FileHandle::Stdin(f) => f.write(io, data),
            FileHandle::Stdout(f) => f.write(io, data),
            FileHandle::Inode(f) => f.write(io, data),
        }
    }

    fn nlinks(&self, io: &IoState) -> (n: u32) {
        match self {
            FileHandle::Stdin(f) => f.nlinks(io),
            FileHandle::Stdout(f) => f.nlinks(io),
            FileHandle::Inode(f) => f.nlinks(io),
        }
    }

    fn get_mode(&self, io: &IoState) -> (m: StatMode) {
        match self {
            FileHandle::Stdin(f) => f.get_mode(io),
            FileHandle::Stdout(f) => f.get_mode(io),
            FileHandle::Inode(f) => f.get_mode(io),
        }
    }

    fn get_ino(&self) -> (n: u32) {
        match self {
            FileHandle::Stdin(f) => f.get_ino(),
            FileHandle::Stdout(f) => f.get_ino(),
            FileHandle::Inode(f) => f.get_ino(),
        }
    }
}

/// A `stat` record as user space sees it: device and inode number as
/// 64-bit words, mode and link count as 32-bit words, all little-endian,
/// then seven reserved 64-bit words of zero.
pub open spec fn stat_wire(dev: u64, ino: u64, mode: StatMode, nlink: u32) -> Seq<u8> {
    le_bytes(dev as nat, 8).add(le_bytes(ino as nat, 8)).add(
        le_bytes(mode.spec_bits() as nat, 4),
    ).add(le_bytes(nlink as nat, 4)).add(Seq::new(56, |i: int| 0u8))
}

/// Size in bytes of the `stat` record as user space sees it.
pub const STAT_SIZE: usize = 80;

/// The stat of an inode.
#[derive(Debug)]
pub struct Stat {
    /// ID of device containing file
    pub dev: u64,
    /// inode number
    pub ino: u64,
    /// file type and mode
    pub mode: StatMode,
    /// number of hard links
    pub nlink: u32,
    /// unused pad
    pub pad: [u64; 7],
}

impl Stat {
    /// A record with the given fields and zeroed padding.
    pub fn new(dev: u64, ino: u64, mode: StatMode, nlink: u32) -> (st: Stat)
        ensures
            st.dev == dev,
            st.ino == ino,
            st.mode == mode,
            st.nlink == nlink,
            st.pad@ == Seq::new(7, |i: int| 0u64),
    {
        let st = Stat { dev, ino, mode, nlink, pad: [0;7] };
        assert(st.pad@ =~= Seq::new(7, |i: int| 0u64));
        st
    }

    /// The record as user space sees it.
    pub open spec fn wire(&self) -> Seq<u8> {
        stat_wire(self.dev, self.ino, self.mode, self.nlink)
    }

    /// Encodes the record for user space.
    pub fn to_bytes(&self) -> (out: Vec<u8>)
        ensures
            out@ == self.wire(),
            out@.len() == STAT_SIZE,
    {
        let mut out: Vec<u8> = Vec::new();
        push_le(&mut out, self.dev, 8);
        push_le(&mut out, self.ino, 8);
        push_le(&mut out, self.mode.bits() as u64, 4);
        push_le(&mut out, self.nlink as u64, 4);
        push_zeros(&mut out, 56);
        proof {
            lemma_le_bytes_len(self.dev as nat, 8);
            lemma_le_bytes_len(self.ino as nat, 8);
            lemma_le_bytes_len(self.mode.spec_bits() as nat, 4);
            lemma_le_bytes_len(self.nlink as nat, 4);
            assert(Seq::<u8>::empty().add(le_bytes(self.dev as nat, 8)) =~= le_bytes(
                self.dev as nat,
                8,
            ));
        }
        out
    }
}

/// The `stat` record of the file behind `handle`: device 0, its inode
/// number, its mode and its link count as it is now.
pub open spec fn stat_of(handle: FileHandle, io: IoView) -> (u64, u64, StatMode, u32) {
    (0u64, handle.inode_number() as u64, handle.mode(io), handle.link_count(io))
}

/// Reports the `stat` record of the file behind `handle`.
pub fn stat(handle: &FileHandle, io: &IoState) -> (st: Stat)
    requires
        io.wf(),
        handle.valid(io@),
    ensures
        (st.dev, st.ino, st.mode, st.nlink) == stat_of(*handle, io@),
{
    let nlink = handle.nlinks(io);
    let ino = handle.get_ino() as u64;
    let mode = handle.get_mode(io);
    Stat::new(0, ino, mode, nlink)
}

} // verus!
