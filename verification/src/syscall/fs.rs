//! File and filesystem-related syscalls

use crate::fs::inode::{
    create_link, delete_link, link_fs, link_succeeds, open_file, open_handle, open_io,
    open_succeeds, unlink_fs, unlink_succeeds, OpenFlags, ALL_FLAGS,
};
use crate::fs::{io_extends, stat, stat_of, stat_wire, File, FileHandle, IoView, STAT_SIZE};
use crate::mm::user_buffer::{
    bytes_at, c_string_at, copy_from_user, range_accessible, translated_byte_buffer,
    translated_str, write_bytes, Access,
};
use crate::slots::{first_none, lemma_first_none};
use crate::syscall::process::{store_to_current, stored};
use crate::syscall::{current_task, with_current};
use crate::task::kernel::Kernel;
use crate::task::model::{
    fds_valid, handle_slot, lemma_changed_wf, lemma_current, lemma_fds_stay_valid,
    lemma_io_changed_wf, released, KernelView,
};
use crate::task::task::TaskView;
use vstd::prelude::*;

verus! {

/// The handle behind descriptor `fd` of the current task, if it is open.
pub open spec fn fd_handle(k: KernelView, fd: usize) -> Option<FileHandle> {
    let fds = current_task(k).fds;
    if fd < fds.len() {
        fds[fd as int]
    } else {
        None
    }
}

/// Whether `write` succeeds: the descriptor is open for writing and the
/// buffer, of a length that the call can return, is readable by the task.
pub open spec fn write_succeeds(k: KernelView, fd: usize, buf: usize, len: usize) -> bool {
    &&& fd_handle(k, fd) is Some
    &&& fd_handle(k, fd)->0.is_writable()
    &&& len <= isize::MAX
    &&& range_accessible(current_task(k).memory, buf as int, len as int, Access::Read)
}

/// What `write` returns: the number of bytes that the file took, or -1.
pub open spec fn write_ret(k: KernelView, fd: usize, buf: usize, len: usize) -> int {
    if write_succeeds(k, fd, buf, len) {
        fd_handle(k, fd)->0.written(k.io, bytes_at(current_task(k).memory, buf as int, len as int))
    } else {
        -1
    }
}

/// The kernel after `write`: the file took the bytes of the buffer.
pub open spec fn write_post(k: KernelView, fd: usize, buf: usize, len: usize) -> KernelView {
    if write_succeeds(k, fd, buf, len) {
        let h = fd_handle(k, fd)->0;
        let data = bytes_at(current_task(k).memory, buf as int, len as int);
        KernelView { io: h.io_after_write(k.io, data), ..k }
    } else {
        k
    }
}

/// Whether `read` succeeds: the descriptor is open for reading and the
/// buffer, of a length that the call can return, is writable by the task.
pub open spec fn read_succeeds(k: KernelView, fd: usize, buf: usize, len: usize) -> bool {
    &&& fd_handle(k, fd) is Some
    &&& fd_handle(k, fd)->0.is_readable()
    &&& len <= isize::MAX
    &&& range_accessible(current_task(k).memory, buf as int, len as int, Access::Write)
}

/// What `read` returns: the number of bytes that the file gave, or -1.
pub open spec fn read_ret(k: KernelView, fd: usize, buf: usize, len: usize) -> int {
    if read_succeeds(k, fd, buf, len) {
        fd_handle(k, fd)->0.read_data(k.io, len as int).len() as int
    } else {
        -1
    }
}

/// The kernel after `read`: the bytes that the file gave are at the
/// start of the buffer.
pub open spec fn read_post(k: KernelView, fd: usize, buf: usize, len: usize) -> KernelView {
    if read_succeeds(k, fd, buf, len) {
        let h = fd_handle(k, fd)->0;
        let t = current_task(k);
        let data = h.read_data(k.io, len as int);
        KernelView {
            io: h.io_after_read(k.io, len as int),
            ..with_current(k, TaskView { memory: write_bytes(t.memory, buf as int, data), ..t })
        }
    } else {
        k
    }
}

/// Whether `open` succeeds: the path is a readable string, the flags are
/// recognised, the descriptor table can grow, and the file can be opened.
pub open spec fn sys_open_succeeds(k: KernelView, path: usize, flags: u32) -> bool {
    let t = current_task(k);
    &&& c_string_at(t.memory, path as int) is Some
    &&& flags & !ALL_FLAGS == 0
    &&& t.fds.len() < isize::MAX
    &&& open_succeeds(k.io, c_string_at(t.memory, path as int)->0, OpenFlags { bits: flags })
}

/// The kernel after `open`: the lowest free descriptor holds the file.
pub open spec fn sys_open_post(k: KernelView, path: usize, flags: u32) -> KernelView {
    if sys_open_succeeds(k, path, flags) {
        let t = current_task(k);
        let name = c_string_at(t.memory, path as int)->0;
        let f = OpenFlags { bits: flags };
        let fd = first_none(t.fds);
        let table = if fd < t.fds.len() {
            t.fds
        } else {
            t.fds.push(None)
        };
        let h = FileHandle::Inode(open_handle(k.io, name, f)->0);
        KernelView {
            io: open_io(k.io, name, f),
            ..with_current(k, TaskView { fds: table.update(fd, Some(h)), ..t })
        }
    } else {
        k
    }
}

/// The kernel after `close`: the descriptor is free, and the position of
/// a disk file that no other descriptor names is given up.
pub open spec fn close_post(k: KernelView, fd: usize) -> KernelView {
    match fd_handle(k, fd) {
        Some(h) => {
            let t = current_task(k);
            let closed = with_current(k, TaskView { fds: t.fds.update(fd as int, None), ..t });
            match handle_slot(Some(h)) {
                Some(slot) => released(closed, slot),
                None => closed,
            }
        },
        None => k,
    }
}

/// The kernel after `linkat`.
pub open spec fn linkat_post(k: KernelView, old_name: usize, new_name: usize) -> KernelView {
    let m = current_task(k).memory;
    if c_string_at(m, old_name as int) is Some && c_string_at(m, new_name as int) is Some {
        KernelView {
            io: IoView {
                fs: link_fs(
                    k.io.fs,
                    c_string_at(m, old_name as int)->0,
                    c_string_at(m, new_name as int)->0,
                ),
                ..k.io
            },
            ..k
        }
    } else {
        k
    }
}

/// Whether `linkat` succeeds: both paths are readable strings, and the
/// link can be made.
pub open spec fn linkat_succeeds(k: KernelView, old_name: usize, new_name: usize) -> bool {
    let m = current_task(k).memory;
    &&& c_string_at(m, old_name as int) is Some
    &&& c_string_at(m, new_name as int) is Some
    &&& link_succeeds(
        k.io.fs,
        c_string_at(m, old_name as int)->0,
        c_string_at(m, new_name as int)->0,
    )
}

/// Whether `unlinkat` succeeds: the path is a readable string that names
/// a file.
pub open spec fn unlinkat_succeeds(k: KernelView, name: usize) -> bool {
    let m = current_task(k).memory;
    c_string_at(m, name as int) is Some && unlink_succeeds(k.io.fs, c_string_at(m, name as int)->0)
}

/// The kernel after `unlinkat`.
pub open spec fn unlinkat_post(k: KernelView, name: usize) -> KernelView {
    let m = current_task(k).memory;
    if c_string_at(m, name as int) is Some {
        KernelView {
            io: IoView { fs: unlink_fs(k.io.fs, c_string_at(m, name as int)->0), ..k.io },
            ..k
        }
    } else {
        k
    }
}

/// The handle behind descriptor `fd` of the current task, if it is open.
pub fn current_handle(kernel: &Kernel, fd: usize) -> (r: Option<FileHandle>)
    requires
        kernel.wf(),
        kernel@.current is Some,
    ensures
        r == fd_handle(kernel@, fd),
        r is Some ==> r->0.valid(kernel@.io) && fd < current_task(kernel@).fds.len(),
{
    let pid = kernel.current.unwrap();
    proof {
        lemma_current(kernel@);
    }
    match &kernel.tasks[pid] {
        Some(task) => {
            if fd >= task.fd_table.len() {
                None
            } else {
                task.fd_table[fd]
            }
        },
        None => None,
    }
}

/// Writes the `len` bytes at `buf` in the memory of the current task to
/// the file behind `fd`.
///
/// Returns the number of bytes written, and -1, changing nothing, when
/// the descriptor is not open for writing, `len` is more than the call
/// can return, or the buffer is not readable by the task.
pub fn sys_write(kernel: &mut Kernel, fd: usize, buf: usize, len: usize) -> (r: isize)
    requires
        old(kernel).wf(),
        old(kernel)@.current is Some,
    ensures
        final(kernel).wf(),
        final(kernel)@ == write_post(old(kernel)@, fd, buf, len),
        r == write_ret(old(kernel)@, fd, buf, len),
{
    let ghost o = old(kernel)@;
    let pid = kernel.current.unwrap();
    proof {
        lemma_current(o);
    }
    let mut file = match current_handle(kernel, fd) {
        Some(file) => file,
        None => {
            return -1;
        },
    };
    if !file.writable() {
        return -1;
    }
    if len > isize::MAX as usize {
        return -1;
    }
    let data = match &kernel.tasks[pid] {
        Some(task) => copy_from_user(&task.memory_set, buf, len),
        None => None,
    };
    let data = match data {
        Some(data) => data,
        None => {
            return -1;
        },
    };
    let n = file.write(&mut kernel.io, &data);
    proof {
        assert(kernel@.tasks =~= o.tasks);
        lemma_io_changed_wf(o, kernel@);
    }
    n as isize
}

/// Reads up to `len` bytes from the file behind `fd` into the memory of
/// the current task at `buf`.
///
/// Returns the number of bytes read, and -1, changing nothing, when the
/// descriptor is not open for reading, `len` is more than the call can
/// return, or the buffer is not writable by the task.
pub fn sys_read(kernel: &mut Kernel, fd: usize, buf: usize, len: usize) -> (r: isize)
    requires
        old(kernel).wf(),
        old(kernel)@.current is Some,
    ensures
        final(kernel).wf(),
        final(kernel)@ == read_post(old(kernel)@, fd, buf, len),
        r == read_ret(old(kernel)@, fd, buf, len),
{
    let ghost o = old(kernel)@;
    let pid = kernel.current.unwrap();
    proof {
        lemma_current(o);
    }
    let mut file = match current_handle(kernel, fd) {
        Some(file) => file,
        None => {
            return -1;
        },
    };
    if !file.readable() {
        return -1;
    }
    if len > isize::MAX as usize {
        return -1;
    }
    let writable = match &kernel.tasks[pid] {
        Some(task) => translated_byte_buffer(&task.memory_set, buf, len, Access::Write).is_some(),
        None => false,
    };
    if !writable {
        return -1;
    }
    let data = file.read(&mut kernel.io, len);
    let ghost mid = kernel@;
    proof {
        assert(mid.tasks =~= o.tasks);
        lemma_io_changed_wf(o, mid);
        assert(range_accessible(
            current_task(mid).memory,
            buf as int,
            data@.len() as int,
            Access::Write,
        ));
    }
    let done = store_to_current(kernel, buf, &data);
    proof {
        assert(kernel@.tasks =~= read_post(o, fd, buf, len).tasks);
    }
    data.len() as isize
}

/// Opens the file that the string at `path` in the memory of the current
/// task names, with `flags`, under the lowest free descriptor.
///
/// Returns the descriptor, and -1, changing nothing, when the path is
/// unreadable, the flags hold an unknown bit, the descriptor table is
/// full, or the file cannot be opened.
pub fn sys_open(kernel: &mut Kernel, path: usize, flags: u32) -> (r: isize)
    requires
        old(kernel).wf(),
        old(kernel)@.current is Some,
    ensures
        final(kernel).wf(),
        final(kernel)@ == sys_open_post(old(kernel)@, path, flags),
        r == if sys_open_succeeds(old(kernel)@, path, flags) {
            first_none(current_task(old(kernel)@).fds)
        } else {
            -1
        },
{
    let ghost o = old(kernel)@;
    let pid = kernel.current.unwrap();
    proof {
        lemma_current(o);
        lemma_first_none(current_task(o).fds);
    }
    let name = match &kernel.tasks[pid] {
        Some(task) => translated_str(&task.memory_set, path),
        None => None,
    };
    let name = match name {
        Some(name) => name,
        None => {
            return -1;
        },
    };
    let open_flags = match OpenFlags::from_bits(flags) {
        Some(f) => f,
        None => {
            return -1;
        },
    };
    let room = match &kernel.tasks[pid] {
        Some(task) => task.fd_table.len() < isize::MAX as usize,
        None => false,
    };
    if !room {
        return -1;
    }
    let inode = match open_file(&mut kernel.io, &name, open_flags) {
        Some(inode) => inode,
        None => {
            proof {
                assert(kernel@.tasks =~= o.tasks);
            }
            return -1;
        },
    };
    let fd = match &mut kernel.tasks[pid] {
        Some(task) => {
            let fd = task.alloc_fd();
            task.fd_table[fd] = Some(FileHandle::Inode(inode));
            fd
        },
        None => 0,
    };
    proof {
        let n = kernel@;
        assert(n.tasks =~= sys_open_post(o, path, flags).tasks);
        lemma_fds_stay_valid(current_task(o).fds, o.io, n.io);
        assert(fds_valid(n.tasks[pid as int]->0.fds, n.io));
        lemma_changed_wf(o, n, pid as int);
    }
    fd as isize
}

/// Closes descriptor `fd` of the current task. The position of a disk
/// file is given up with the last descriptor that names it.
///
/// Returns 0, and -1, changing nothing, when the descriptor is not open.
pub fn sys_close(kernel: &mut Kernel, fd: usize) -> (r: isize)
    requires
        old(kernel).wf(),
        old(kernel)@.current is Some,
    ensures
        final(kernel).wf(),
        final(kernel)@ == close_post(old(kernel)@, fd),
        r == if fd_handle(old(kernel)@, fd) is Some {
            0isize
        } else {
            -1isize
        },
{
    let ghost o = old(kernel)@;
    let pid = kernel.current.unwrap();
    proof {
        lemma_current(o);
    }
    let file = match current_handle(kernel, fd) {
        Some(file) => file,
        None => {
            return -1;
        },
    };
    match &mut kernel.tasks[pid] {
        Some(task) => {
            task.fd_table[fd] = None;
        },
        None => {},
    }
    proof {
        let t = current_task(o);
        let closed = with_current(o, TaskView { fds: t.fds.update(fd as int, None), ..t });
        assert(kernel@.tasks =~= closed.tasks);
        assert(fds_valid(kernel@.tasks[pid as int]->0.fds, kernel@.io));
        lemma_changed_wf(o, kernel@, pid as int);
    }
    match file {
        FileHandle::Inode(inode) => {
            kernel.release_slot(inode.slot);
        },
        _ => {},
    }
    0
}

/// Stores the `stat` record of the file behind `fd` at `st` in the memory
/// of the current task.
///
/// Returns 0, and -1, changing nothing, when the descriptor is not open
/// or the record cannot be stored there.
pub fn sys_fstat(kernel: &mut Kernel, fd: usize, st: usize) -> (r: isize)
    requires
        old(kernel).wf(),
        old(kernel)@.current is Some,
    ensures
        final(kernel).wf(),
        fd_handle(old(kernel)@, fd) is None ==> r == -1 && final(kernel)@ == old(kernel)@,
        fd_handle(old(kernel)@, fd) is Some ==> {
            let s = stat_of(fd_handle(old(kernel)@, fd)->0, old(kernel)@.io);
            &&& final(kernel)@ == stored(old(kernel)@, st, stat_wire(s.0, s.1, s.2, s.3))
            &&& r == if range_accessible(
                current_task(old(kernel)@).memory,
                st as int,
                STAT_SIZE as int,
                Access::Write,
            ) {
                0isize
            } else {
                -1isize
            }
        },
{
    let file = match current_handle(kernel, fd) {
        Some(file) => file,
        None => {
            return -1;
        },
    };
    let record = stat(&file, &kernel.io);
    let byte_st = record.to_bytes();
    if store_to_current(kernel, st, &byte_st) {
        0
    } else {
        -1
    }
}

/// Gives the file that the string at `old_name` names the additional
/// name that the string at `new_name` holds.
///
/// Returns 0, and -1, changing nothing, when a path is unreadable, the
/// old one names no file, or the new one is taken.
pub fn sys_linkat(kernel: &mut Kernel, old_name: usize, new_name: usize) -> (r: isize)
    requires
        old(kernel).wf(),
        old(kernel)@.current is Some,
    ensures
        final(kernel).wf(),
        final(kernel)@ == linkat_post(old(kernel)@, old_name, new_name),
        r == if linkat_succeeds(old(kernel)@, old_name, new_name) {
            0isize
        } else {
            -1isize
        },
{
    let ghost o = old(kernel)@;
    let pid = kernel.current.unwrap();
    proof {
        lemma_current(o);
    }
    let names = match &kernel.tasks[pid] {
        Some(task) => (
            translated_str(&task.memory_set, old_name),
            translated_str(&task.memory_set, new_name),
        ),
        None => (None, None),
    };
    let (old_path, new_path) = match names {
        (Some(a), Some(b)) => (a, b),
        _ => {
            return -1;
        },
    };
    let r = create_link(&mut kernel.io.fs, &old_path, &new_path);
    proof {
        assert(kernel@.tasks =~= o.tasks);
        lemma_io_changed_wf(o, kernel@);
    }
    r
}

/// Removes the name that the string at `name` holds.
///
/// Returns 0, and -1, changing nothing, when the path is unreadable or
/// names no file.
pub fn sys_unlinkat(kernel: &mut Kernel, name: usize) -> (r: isize)
    requires
        old(kernel).wf(),
        old(kernel)@.current is Some,
    ensures
        final(kernel).wf(),
        final(kernel)@ == unlinkat_post(old(kernel)@, name),
        r == if unlinkat_succeeds(old(kernel)@, name) {
            0isize
        } else {
            -1isize
        },
{
    let ghost o = old(kernel)@;
    let pid = kernel.current.unwrap();
    proof {
        lemma_current(o);
    }
    let path = match &kernel.tasks[pid] {
        Some(task) => translated_str(&task.memory_set, name),
        None => None,
    };
    let path = match path {
        Some(path) => path,
        None => {
            return -1;
        },
    };
    let r = delete_link(&mut kernel.io.fs, &path);
    proof {
        assert(kernel@.tasks =~= o.tasks);
        lemma_io_changed_wf(o, kernel@);
    }
    r
}

} // verus!
