use kernel_core::fs::inode::{
    create_link, delete_link, open_file, FileSystem, OpenFlags, CREATE, RDONLY, RDWR, TRUNC,
    WRONLY,
};
use kernel_core::fs::stdio::{Stdin, Stdout};
use kernel_core::fs::{stat, File, FileHandle, IoState, Stat, StatMode};
use kernel_core::mm::user_buffer::{copy_from_user, copy_to_user};
use kernel_core::syscall::fs::{
    sys_close, sys_fstat, sys_linkat, sys_open, sys_read, sys_unlinkat, sys_write,
};
use kernel_core::syscall::process::{sys_exit, sys_fork, sys_waitpid, sys_yield};
use kernel_core::task::kernel::Kernel;

const BUF: usize = 0x12000;
const PATH_A: usize = 0x13000;
const PATH_B: usize = 0x13100;

fn booted() -> Kernel {
    let image: Vec<u8> = vec![1, 2, 3, 4];
    let mut kernel = Kernel::new(&image, IoState::new()).unwrap();
    kernel.run_next();
    kernel
}

fn put(kernel: &mut Kernel, addr: usize, bytes: &[u8]) {
    let pid = kernel.current_pid().unwrap();
    let task = kernel.tasks[pid].as_mut().unwrap();
    assert!(copy_to_user(&mut task.memory_set, addr, &bytes.to_vec()));
}

fn get(kernel: &Kernel, addr: usize, len: usize) -> Vec<u8> {
    let pid = kernel.current_pid().unwrap();
    let task = kernel.tasks[pid].as_ref().unwrap();
    copy_from_user(&task.memory_set, addr, len).unwrap()
}

fn flags(bits: u32) -> OpenFlags {
    OpenFlags::from_bits(bits).unwrap()
}

#[test]
fn stat_new_keeps_its_fields() {
    let st = Stat::new(3, 7, StatMode::File, 2);
    assert_eq!(st.dev, 3);
    assert_eq!(st.ino, 7);
    assert_eq!(st.mode, StatMode::File);
    assert_eq!(st.nlink, 2);
    assert_eq!(st.pad, [0u64; 7]);
}

#[test]
fn stat_has_its_byte_exact_layout() {
    let st = Stat::new(0x0102030405060708, 0x1112131415161718, StatMode::Dir, 0xa1a2a3a4);
    let bytes = st.to_bytes();
    assert_eq!(bytes.len(), 80);
    assert_eq!(&bytes[0..8], &[8, 7, 6, 5, 4, 3, 2, 1]);
    assert_eq!(&bytes[8..16], &[0x18, 0x17, 0x16, 0x15, 0x14, 0x13, 0x12, 0x11]);
    assert_eq!(&bytes[16..20], &[0x00, 0x40, 0x00, 0x00]);
    assert_eq!(&bytes[20..24], &[0xa4, 0xa3, 0xa2, 0xa1]);
    assert_eq!(&bytes[24..80], &[0u8; 56][..]);
    assert_eq!(StatMode::Null.bits(), 0);
    assert_eq!(StatMode::Dir.bits(), 0o040000);
    assert_eq!(StatMode::File.bits(), 0o100000);
    assert_eq!(&Stat::new(0, 0, StatMode::File, 1).to_bytes()[16..20], &[0x00, 0x80, 0x00, 0x00]);
}

#[test]
fn open_flags_know_their_bits() {
    assert_eq!(flags(RDONLY).read_write(), (true, false));
    assert_eq!(flags(WRONLY).read_write(), (false, true));
    assert_eq!(flags(RDWR).read_write(), (true, true));
    assert_eq!(flags(CREATE | WRONLY).read_write(), (false, true));
    assert_eq!(flags(CREATE).read_write(), (true, false));
    assert!(flags(CREATE | RDWR).create());
    assert!(!flags(TRUNC | RDWR).create());
    assert!(flags(TRUNC | RDWR).truncate());
    assert_eq!(OpenFlags::from_bits(4), None);
    assert_eq!(OpenFlags::from_bits(1 << 11), None);
    assert_eq!(OpenFlags::from_bits(1539), Some(OpenFlags { bits: 1539 }));
}

#[test]
fn open_creates_only_when_asked() {
    let mut io = IoState::new();
    let name = b"notes".to_vec();
    assert_eq!(open_file(&mut io, &name, flags(RDONLY)), None);
    assert_eq!(open_file(&mut io, &name, flags(TRUNC | RDWR)), None);
    assert_eq!(io.fs.inodes.len(), 1);
    assert_eq!(io.offsets.len(), 0);
    let h = open_file(&mut io, &name, flags(CREATE | WRONLY)).unwrap();
    assert_eq!(h.ino, 1);
    assert_eq!(h.slot, 0);
    assert_eq!(io.offsets, vec![Some(0)]);
    assert!(!h.readable);
    assert!(h.writable);
    assert_eq!(io.fs.inodes.len(), 2);
    assert_eq!(io.fs.inodes[1].nlink, 1);
    assert_eq!(io.fs.inodes[1].mode, StatMode::File);
    assert_eq!(io.fs.lookup(&name), Some(1));
    // it is there now: create does not make a second one
    let h2 = open_file(&mut io, &name, flags(CREATE | RDWR)).unwrap();
    assert_eq!(h2.ino, 1);
    assert_eq!(h2.slot, 1);
    assert_eq!(io.fs.inodes.len(), 2);
    assert_eq!(io.fs.entries.len(), 1);
}

#[test]
fn an_empty_store_holds_the_root_only() {
    let fs = FileSystem::new();
    assert_eq!(fs.inodes.len(), 1);
    assert_eq!(fs.inodes[0].mode, StatMode::Dir);
    assert_eq!(fs.entries.len(), 0);
    assert_eq!(fs.find_entry(&b"x".to_vec()), None);
}

#[test]
fn open_refuses_the_root_directory() {
    let mut io = IoState::new();
    let root = b"/".to_vec();
    assert_eq!(io.fs.lookup(&root), Some(0));
    assert_eq!(io.fs.inodes[0].mode, StatMode::Dir);
    assert_eq!(open_file(&mut io, &root, flags(RDONLY)), None);
    assert_eq!(open_file(&mut io, &root, flags(CREATE | RDWR)), None);
    assert_eq!(io.fs.entries.len(), 0);
    assert_eq!(io.offsets.len(), 0);
    assert_eq!(create_link(&mut io.fs, &root, &b"r".to_vec()), -1);
    assert_eq!(delete_link(&mut io.fs, &root), -1);
}

#[test]
fn write_then_reopen_and_read_round_trips() {
    let mut io = IoState::new();
    let name = b"data.bin".to_vec();
    let payload: Vec<u8> = (0..1000u32).map(|i| (i * 7 % 256) as u8).collect();
    let mut w = open_file(&mut io, &name, flags(CREATE | WRONLY)).unwrap();
    assert_eq!(w.write(&mut io, &payload), 1000);
    assert_eq!(io.offsets[w.slot], Some(1000));
    let mut r = open_file(&mut io, &name, flags(RDONLY)).unwrap();
    assert_eq!(r.read(&mut io, 1000), payload);
    assert_eq!(io.offsets[r.slot], Some(1000));
    assert_eq!(r.read(&mut io, 10), Vec::<u8>::new());
    // in pieces
    let mut r = open_file(&mut io, &name, flags(RDONLY)).unwrap();
    assert_eq!(r.read(&mut io, 300), payload[..300].to_vec());
    assert_eq!(r.read(&mut io, 900), payload[300..].to_vec());
}

#[test]
fn writes_go_where_the_handle_stands() {
    let mut io = IoState::new();
    let name = b"f".to_vec();
    let mut a = open_file(&mut io, &name, flags(CREATE | RDWR)).unwrap();
    assert_eq!(a.write(&mut io, &b"hello world".to_vec()), 11);
    let mut b = open_file(&mut io, &name, flags(RDWR)).unwrap();
    assert_eq!(b.write(&mut io, &b"J".to_vec()), 1);
    assert_eq!(b.read(&mut io, 4), b"ello".to_vec());
    assert_eq!(a.write(&mut io, &b"!!".to_vec()), 2);
    assert_eq!(io.fs.inodes[1].data, b"Jello world!!".to_vec());
    assert_eq!(a.write(&mut io, &Vec::new()), 0);
    // truncation by another handle leaves a gap that reads as zeros
    let _ = open_file(&mut io, &name, flags(TRUNC | WRONLY)).unwrap();
    assert_eq!(io.fs.inodes[1].data, Vec::<u8>::new());
    assert_eq!(b.read(&mut io, 4), Vec::<u8>::new());
    assert_eq!(b.write(&mut io, &b"xy".to_vec()), 2);
    assert_eq!(io.fs.inodes[1].data, vec![0, 0, 0, 0, 0, b'x', b'y']);
}

#[test]
fn links_count_the_names_of_a_file() {
    let mut io = IoState::new();
    let a = b"a".to_vec();
    let b = b"b".to_vec();
    let c = b"c".to_vec();
    let h = open_file(&mut io, &a, flags(CREATE | RDWR)).unwrap();
    let mut fs = io.fs;
    assert_eq!(create_link(&mut fs, &a, &b), 0);
    assert_eq!(fs.inodes[h.ino as usize].nlink, 2);
    assert_eq!(fs.lookup(&b), Some(h.ino));
    assert_eq!(create_link(&mut fs, &b, &c), 0);
    assert_eq!(fs.inodes[h.ino as usize].nlink, 3);
    assert_eq!(delete_link(&mut fs, &a), 0);
    assert_eq!(fs.inodes[h.ino as usize].nlink, 2);
    assert_eq!(fs.lookup(&a), None);
    assert_eq!(fs.lookup(&b), Some(h.ino));
    assert_eq!(fs.lookup(&c), Some(h.ino));
    assert_eq!(delete_link(&mut fs, &c), 0);
    assert_eq!(delete_link(&mut fs, &b), 0);
    assert_eq!(fs.inodes[h.ino as usize].nlink, 0);
    assert_eq!(fs.entries.len(), 0);
}

#[test]
fn link_errors_change_nothing() {
    let mut io = IoState::new();
    let a = b"a".to_vec();
    let b = b"b".to_vec();
    let missing = b"missing".to_vec();
    open_file(&mut io, &a, flags(CREATE | RDWR)).unwrap();
    open_file(&mut io, &b, flags(CREATE | RDWR)).unwrap();
    let mut fs = io.fs;
    assert_eq!(create_link(&mut fs, &missing, &b"x".to_vec()), -1);
    assert_eq!(create_link(&mut fs, &a, &b), -1);
    assert_eq!(create_link(&mut fs, &a, &a), -1);
    assert_eq!(create_link(&mut fs, &a, &b"/".to_vec()), -1);
    assert_eq!(delete_link(&mut fs, &missing), -1);
    assert_eq!(fs.entries.len(), 2);
    assert_eq!(fs.inodes[1].nlink, 1);
    assert_eq!(fs.inodes[2].nlink, 1);
}

#[test]
fn console_files_read_input_and_collect_output() {
    let mut io = IoState::new();
    io.console.input = b"abcdef".to_vec();
    let mut stdin = Stdin;
    let mut stdout = Stdout;
    assert!(stdin.readable() && !stdin.writable());
    assert!(!stdout.readable() && stdout.writable());
    assert_eq!(stdin.read(&mut io, 1), b"a".to_vec());
    assert_eq!(stdin.read(&mut io, 3), b"bcd".to_vec());
    assert_eq!(io.console.input, b"ef".to_vec());
    assert_eq!(stdin.read(&mut io, 10), b"ef".to_vec());
    assert_eq!(stdin.read(&mut io, 10), Vec::<u8>::new());
    assert_eq!(stdout.write(&mut io, &b"hi ".to_vec()), 3);
    assert_eq!(stdout.write(&mut io, &b"there".to_vec()), 5);
    assert_eq!(io.console.output, b"hi there".to_vec());
    assert_eq!(stdin.nlinks(&io), 1);
    assert_eq!(stdin.get_mode(&io), StatMode::Null);
    assert_eq!(stdout.get_ino(), 0);
}

#[test]
fn stat_reports_console_and_disk_files() {
    let mut io = IoState::new();
    let st = stat(&FileHandle::Stdout(Stdout), &io);
    assert_eq!((st.dev, st.ino, st.mode, st.nlink), (0, 0, StatMode::Null, 1));
    open_file(&mut io, &b"first".to_vec(), flags(CREATE | RDWR)).unwrap();
    let h = open_file(&mut io, &b"second".to_vec(), flags(CREATE | RDWR)).unwrap();
    assert_eq!(create_link(&mut io.fs, &b"second".to_vec(), &b"third".to_vec()), 0);
    let st = stat(&FileHandle::Inode(h), &io);
    assert_eq!((st.dev, st.ino, st.mode, st.nlink), (0, 2, StatMode::File, 2));
}

#[test]
fn sys_write_prints_on_the_console() {
    let mut kernel = booted();
    put(&mut kernel, BUF, b"Hello, world!\n");
    assert_eq!(sys_write(&mut kernel, 1, BUF, 14), 14);
    assert_eq!(sys_write(&mut kernel, 2, BUF, 5), 5);
    assert_eq!(kernel.io.console.output, b"Hello, world!\nHello".to_vec());
    assert_eq!(sys_write(&mut kernel, 1, BUF, 0), 0);
}

#[test]
fn sys_write_rejects_bad_descriptors_and_buffers() {
    let mut kernel = booted();
    put(&mut kernel, BUF, b"data");
    assert_eq!(sys_write(&mut kernel, 0, BUF, 4), -1);
    assert_eq!(sys_write(&mut kernel, 3, BUF, 4), -1);
    assert_eq!(sys_write(&mut kernel, 1000, BUF, 4), -1);
    assert_eq!(sys_write(&mut kernel, 1, 0x11000, 4), -1);
    assert_eq!(sys_write(&mut kernel, 1, 0x14000 - 2, 4), -1);
    assert_eq!(sys_write(&mut kernel, 1, BUF, usize::MAX), -1);
    assert_eq!(sys_close(&mut kernel, 1), 0);
    assert_eq!(sys_write(&mut kernel, 1, BUF, 4), -1);
    assert_eq!(kernel.io.console.output, Vec::<u8>::new());
}

#[test]
fn sys_read_takes_console_input() {
    let mut kernel = booted();
    kernel.io.console.input = b"xyz".to_vec();
    assert_eq!(sys_read(&mut kernel, 0, BUF, 1), 1);
    assert_eq!(get(&kernel, BUF, 1), b"x".to_vec());
    assert_eq!(sys_read(&mut kernel, 0, BUF + 1, 100), 2);
    assert_eq!(get(&kernel, BUF, 4), vec![b'x', b'y', b'z', 0]);
    assert_eq!(sys_read(&mut kernel, 0, BUF, 100), 0);
    // nothing is taken from the input when the call fails
    kernel.io.console.input = b"q".to_vec();
    assert_eq!(sys_read(&mut kernel, 1, BUF, 1), -1);
    assert_eq!(sys_read(&mut kernel, 7, BUF, 1), -1);
    assert_eq!(sys_read(&mut kernel, 0, 0x10000 - 1, 1), -1);
    assert_eq!(sys_read(&mut kernel, 0, 0x14000 - 1, 2), -1);
    assert_eq!(kernel.io.console.input, b"q".to_vec());
}

#[test]
fn sys_open_write_read_round_trip() {
    let mut kernel = booted();
    put(&mut kernel, PATH_A, b"file_a\0");
    put(&mut kernel, BUF, b"0123456789");
    let fd = sys_open(&mut kernel, PATH_A, CREATE | WRONLY);
    assert_eq!(fd, 3);
    assert_eq!(sys_write(&mut kernel, 3, BUF, 10), 10);
    assert_eq!(sys_read(&mut kernel, 3, BUF + 100, 10), -1);
    assert_eq!(sys_close(&mut kernel, 3), 0);
    assert_eq!(sys_open(&mut kernel, PATH_A, RDONLY), 3);
    assert_eq!(sys_write(&mut kernel, 3, BUF, 10), -1);
    assert_eq!(sys_read(&mut kernel, 3, BUF + 100, 4), 4);
    assert_eq!(sys_read(&mut kernel, 3, BUF + 104, 100), 6);
    assert_eq!(get(&kernel, BUF + 100, 11), b"0123456789\0".to_vec());
    assert_eq!(sys_read(&mut kernel, 3, BUF + 100, 100), 0);
}

#[test]
fn sys_open_takes_the_lowest_free_descriptor() {
    let mut kernel = booted();
    put(&mut kernel, PATH_A, b"a\0");
    put(&mut kernel, PATH_B, b"b\0");
    assert_eq!(sys_open(&mut kernel, PATH_A, CREATE | RDWR), 3);
    assert_eq!(sys_open(&mut kernel, PATH_B, CREATE | RDWR), 4);
    assert_eq!(sys_open(&mut kernel, PATH_A, RDONLY), 5);
    assert_eq!(sys_close(&mut kernel, 4), 0);
    assert_eq!(sys_close(&mut kernel, 0), 0);
    assert_eq!(sys_open(&mut kernel, PATH_B, RDONLY), 0);
    assert_eq!(sys_open(&mut kernel, PATH_B, RDONLY), 4);
    assert_eq!(sys_open(&mut kernel, PATH_B, RDONLY), 6);
}

#[test]
fn sys_open_rejects_bad_arguments() {
    let mut kernel = booted();
    put(&mut kernel, PATH_A, b"nothing\0");
    put(&mut kernel, PATH_B, b"/\0");
    assert_eq!(sys_open(&mut kernel, PATH_A, RDONLY), -1);
    assert_eq!(sys_open(&mut kernel, PATH_A, RDWR | TRUNC), -1);
    assert_eq!(sys_open(&mut kernel, PATH_A, CREATE | 4), -1);
    assert_eq!(sys_open(&mut kernel, PATH_B, RDONLY), -1);
    assert_eq!(sys_open(&mut kernel, 0x11000, CREATE), -1);
    assert_eq!(kernel.io.fs.entries.len(), 0);
    assert_eq!(kernel.tasks[0].as_ref().unwrap().fd_table.len(), 3);
}

#[test]
fn sys_close_frees_the_descriptor() {
    let mut kernel = booted();
    assert_eq!(sys_close(&mut kernel, 3), -1);
    assert_eq!(sys_close(&mut kernel, usize::MAX), -1);
    assert_eq!(sys_close(&mut kernel, 2), 0);
    assert_eq!(sys_close(&mut kernel, 2), -1);
    assert_eq!(kernel.tasks[0].as_ref().unwrap().fd_table[2], None);
    assert_eq!(kernel.tasks[0].as_ref().unwrap().fd_table.len(), 3);
}

#[test]
fn sys_fstat_stores_the_record() {
    let mut kernel = booted();
    put(&mut kernel, PATH_A, b"one\0");
    put(&mut kernel, PATH_B, b"two\0");
    assert_eq!(sys_open(&mut kernel, PATH_A, CREATE | RDWR), 3);
    assert_eq!(sys_open(&mut kernel, PATH_B, CREATE | RDWR), 4);
    put(&mut kernel, BUF, &[0xffu8; 96]);
    assert_eq!(sys_fstat(&mut kernel, 4, BUF + 8), 0);
    let mut want = vec![0xffu8; 8];
    want.extend_from_slice(&Stat::new(0, 2, StatMode::File, 1).to_bytes());
    want.extend_from_slice(&[0xffu8; 8]);
    assert_eq!(get(&kernel, BUF, 96), want);
    assert_eq!(sys_fstat(&mut kernel, 1, BUF), 0);
    assert_eq!(get(&kernel, BUF, 80), Stat::new(0, 0, StatMode::Null, 1).to_bytes());
    assert_eq!(sys_fstat(&mut kernel, 5, BUF), -1);
    assert_eq!(sys_fstat(&mut kernel, 3, 0x14000 - 79), -1);
    assert_eq!(sys_fstat(&mut kernel, 3, 0x10000), -1);
    assert_eq!(sys_fstat(&mut kernel, 3, 0x14000 - 80), 0);
}

#[test]
fn linkat_then_unlinkat_keeps_the_second_name() {
    let mut kernel = booted();
    put(&mut kernel, PATH_A, b"a\0");
    put(&mut kernel, PATH_B, b"b\0");
    put(&mut kernel, BUF, b"payload");
    assert_eq!(sys_open(&mut kernel, PATH_A, CREATE | WRONLY), 3);
    assert_eq!(sys_write(&mut kernel, 3, BUF, 7), 7);
    assert_eq!(sys_linkat(&mut kernel, PATH_A, PATH_B), 0);
    assert_eq!(sys_fstat(&mut kernel, 3, BUF + 256), 0);
    assert_eq!(get(&kernel, BUF + 256 + 20, 4), vec![2, 0, 0, 0]);
    assert_eq!(sys_unlinkat(&mut kernel, PATH_A), 0);
    assert_eq!(sys_open(&mut kernel, PATH_A, RDONLY), -1);
    let fd = sys_open(&mut kernel, PATH_B, RDONLY);
    assert_eq!(fd, 4);
    assert_eq!(sys_fstat(&mut kernel, 4, BUF + 256), 0);
    assert_eq!(get(&kernel, BUF + 256, 80), Stat::new(0, 1, StatMode::File, 1).to_bytes());
    // the handle opened under the first name sees the live count as well
    assert_eq!(sys_fstat(&mut kernel, 3, BUF + 512), 0);
    assert_eq!(get(&kernel, BUF + 512, 80), Stat::new(0, 1, StatMode::File, 1).to_bytes());
    assert_eq!(sys_read(&mut kernel, 4, BUF + 1024, 100), 7);
    assert_eq!(get(&kernel, BUF + 1024, 7), b"payload".to_vec());
    assert_eq!(sys_unlinkat(&mut kernel, PATH_B), 0);
    assert_eq!(sys_fstat(&mut kernel, 4, BUF + 256), 0);
    assert_eq!(get(&kernel, BUF + 256 + 20, 4), vec![0, 0, 0, 0]);
}

#[test]
fn linkat_and_unlinkat_reject_bad_paths() {
    let mut kernel = booted();
    put(&mut kernel, PATH_A, b"a\0");
    put(&mut kernel, PATH_B, b"b\0");
    assert_eq!(sys_linkat(&mut kernel, PATH_A, PATH_B), -1);
    assert_eq!(sys_unlinkat(&mut kernel, PATH_A), -1);
    assert_eq!(sys_open(&mut kernel, PATH_A, CREATE), 3);
    assert_eq!(sys_linkat(&mut kernel, PATH_A, PATH_A), -1);
    assert_eq!(sys_linkat(&mut kernel, PATH_A, 0x11000), -1);
    assert_eq!(sys_linkat(&mut kernel, 0x11000, PATH_B), -1);
    assert_eq!(sys_unlinkat(&mut kernel, 0x11000), -1);
    assert_eq!(sys_linkat(&mut kernel, PATH_A, PATH_B), 0);
    assert_eq!(sys_linkat(&mut kernel, PATH_A, PATH_B), -1);
    assert_eq!(kernel.io.fs.inodes[1].nlink, 2);
}

#[test]
fn forked_descriptors_share_the_position() {
    let mut kernel = booted();
    put(&mut kernel, PATH_A, b"shared\0");
    put(&mut kernel, BUF, b"abcdefg");
    assert_eq!(sys_open(&mut kernel, PATH_A, CREATE | RDWR), 3);
    assert_eq!(sys_write(&mut kernel, 3, BUF, 3), 3);
    assert_eq!(sys_fork(&mut kernel), 1);
    assert_eq!(sys_yield(&mut kernel), 0);
    assert_eq!(kernel.current_pid(), Some(1));
    // the child goes on where the parent stopped
    assert_eq!(sys_write(&mut kernel, 3, BUF + 3, 3), 3);
    assert_eq!(sys_yield(&mut kernel), 0);
    assert_eq!(kernel.current_pid(), Some(0));
    assert_eq!(sys_write(&mut kernel, 3, BUF + 6, 1), 1);
    assert_eq!(kernel.io.fs.inodes[1].data, b"abcdefg".to_vec());
    assert_eq!(kernel.io.offsets, vec![Some(7)]);
    // a second open of the same file has a position of its own
    assert_eq!(sys_open(&mut kernel, PATH_A, RDONLY), 4);
    assert_eq!(kernel.io.offsets, vec![Some(7), Some(0)]);
    assert_eq!(sys_read(&mut kernel, 4, BUF + 100, 2), 2);
    assert_eq!(kernel.io.offsets, vec![Some(7), Some(2)]);
}

#[test]
fn close_gives_up_the_position_with_the_last_descriptor() {
    let mut kernel = booted();
    put(&mut kernel, PATH_A, b"f\0");
    assert_eq!(sys_open(&mut kernel, PATH_A, CREATE | RDWR), 3);
    assert_eq!(sys_open(&mut kernel, PATH_A, RDWR), 4);
    assert_eq!(sys_fork(&mut kernel), 1);
    assert_eq!(sys_close(&mut kernel, 3), 0);
    // the child still names the slot
    assert_eq!(kernel.io.offsets, vec![Some(0), Some(0)]);
    assert_eq!(sys_yield(&mut kernel), 0);
    assert_eq!(kernel.current_pid(), Some(1));
    assert_eq!(sys_close(&mut kernel, 3), 0);
    assert_eq!(kernel.io.offsets, vec![None, Some(0)]);
    assert_eq!(sys_close(&mut kernel, 3), -1);
    // the slot is used again
    assert_eq!(sys_open(&mut kernel, PATH_A, RDONLY), 3);
    assert_eq!(kernel.io.offsets, vec![Some(0), Some(0)]);
    assert_eq!(kernel.tasks[1].as_ref().unwrap().fd_table[3].map(|h| h.get_ino()), Some(1));
}

#[test]
fn reaping_releases_the_descriptors_of_the_child() {
    let mut kernel = booted();
    put(&mut kernel, PATH_A, b"f\0");
    put(&mut kernel, PATH_B, b"g\0");
    assert_eq!(sys_open(&mut kernel, PATH_A, CREATE | RDWR), 3);
    assert_eq!(sys_fork(&mut kernel), 1);
    assert_eq!(sys_close(&mut kernel, 3), 0);
    assert_eq!(sys_yield(&mut kernel), 0);
    assert_eq!(kernel.current_pid(), Some(1));
    assert_eq!(sys_open(&mut kernel, PATH_B, CREATE | RDWR), 4);
    assert_eq!(kernel.io.offsets, vec![Some(0), Some(0)]);
    sys_exit(&mut kernel, 0);
    assert_eq!(kernel.current_pid(), Some(0));
    // a zombie keeps its descriptors until it is waited for
    assert_eq!(kernel.io.offsets, vec![Some(0), Some(0)]);
    assert_eq!(sys_waitpid(&mut kernel, -1, BUF), 1);
    assert_eq!(kernel.io.offsets, vec![None, None]);
}

#[test]
fn handles_give_and_take_nothing_against_their_direction() {
    let mut io = IoState::new();
    io.console.input = b"typed".to_vec();
    let mut stdin = Stdin;
    let mut stdout = Stdout;
    assert_eq!(stdin.write(&mut io, &b"x".to_vec()), 0);
    assert_eq!(stdout.read(&mut io, 5), Vec::<u8>::new());
    assert_eq!(io.console.input, b"typed".to_vec());
    assert_eq!(io.console.output, Vec::<u8>::new());
    let name = b"f".to_vec();
    let mut w = open_file(&mut io, &name, flags(CREATE | WRONLY)).unwrap();
    assert_eq!(w.write(&mut io, &b"abc".to_vec()), 3);
    let mut r = open_file(&mut io, &name, flags(RDONLY)).unwrap();
    assert_eq!(r.write(&mut io, &b"zzz".to_vec()), 0);
    assert_eq!(io.fs.inodes[1].data, b"abc".to_vec());
    assert_eq!(io.offsets[r.slot], Some(0));
    io.offsets[w.slot] = Some(0);
    assert_eq!(w.read(&mut io, 3), Vec::<u8>::new());
    assert_eq!(io.offsets[w.slot], Some(0));
    assert_eq!(r.read(&mut io, 3), b"abc".to_vec());
}
