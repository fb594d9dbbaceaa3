use kernel_core::config::{BIG_STRIDE, DEFAULT_PRIORITY, MAX_SYSCALL_NUM};
use kernel_core::fs::inode::{CREATE, WRONLY};
use kernel_core::fs::stdio::Stdin;
use kernel_core::fs::{FileHandle, IoState};
use kernel_core::mm::user_buffer::{copy_from_user, copy_to_user};
use kernel_core::syscall::fs::{sys_close, sys_open, sys_write};
use kernel_core::syscall::process::{
    record_syscall, sys_exec, sys_exit, sys_fork, sys_get_time, sys_getpid, sys_mmap,
    sys_set_priority, sys_spawn, sys_task_info, sys_waitpid, sys_yield, TaskInfo, TimeVal,
};
use kernel_core::task::kernel::{add_task, fetch_task, Kernel};
use kernel_core::task::manager::TaskManager;
use kernel_core::task::task::{TaskControlBlock, TaskStatus};

const BUF: usize = 0x12000;
const PATH: usize = 0x13000;

fn booted() -> Kernel {
    let image: Vec<u8> = vec![1, 2, 3, 4];
    let mut kernel = Kernel::new(&image, IoState::new()).unwrap();
    kernel.run_next();
    kernel
}

fn put(kernel: &mut Kernel, addr: usize, bytes: &[u8]) {
    let pid = kernel.current_pid().unwrap();
    let task = kernel.tasks[pid].as_mut().unwrap();
    assert!(copy_to_user(&mut task.memory_set, addr, &bytes.to_vec()));
}

fn get(kernel: &Kernel, addr: usize, len: usize) -> Vec<u8> {
    let pid = kernel.current_pid().unwrap();
    let task = kernel.tasks[pid].as_ref().unwrap();
    copy_from_user(&task.memory_set, addr, len).unwrap()
}

fn store_program(kernel: &mut Kernel, name: &[u8], program: &[u8]) {
    let mut path = name.to_vec();
    path.push(0);
    put(kernel, PATH, &path);
    let fd = sys_open(kernel, PATH, CREATE | WRONLY);
    assert!(fd >= 0);
    for chunk in program.chunks(2048) {
        put(kernel, BUF, chunk);
        assert_eq!(sys_write(kernel, fd as usize, BUF, chunk.len()), chunk.len() as isize);
    }
    assert_eq!(sys_close(kernel, fd as usize), 0);
}

/// Yields until `pid` is on the processor.
fn switch_to(kernel: &mut Kernel, pid: usize) {
    for _ in 0..1000 {
        if kernel.current_pid() == Some(pid) {
            return;
        }
        assert_eq!(sys_yield(kernel), 0);
    }
    panic!("task {} never ran", pid);
}

#[test]
fn boot_runs_the_initial_task() {
    let image: Vec<u8> = vec![1, 2, 3, 4];
    let mut kernel = Kernel::new(&image, IoState::new()).unwrap();
    assert_eq!(kernel.current_pid(), None);
    assert_eq!(kernel.manager.len(), 1);
    kernel.run_next();
    assert_eq!(kernel.current_pid(), Some(0));
    assert_eq!(kernel.manager.len(), 0);
    let init = kernel.tasks[0].as_ref().unwrap();
    assert_eq!(init.status, TaskStatus::Running);
    assert_eq!(init.priority, DEFAULT_PRIORITY);
    assert_eq!(init.stride, BIG_STRIDE / 16);
    assert_eq!(init.stride, 268435456);
    assert_eq!(init.parent, None);
    assert_eq!(init.sys_times.len(), MAX_SYSCALL_NUM);
    assert_eq!(init.fd_table[0], Some(FileHandle::Stdin(Stdin)));
    assert_eq!(sys_getpid(&kernel), 0);
}

#[test]
fn a_huge_image_does_not_boot() {
    let mut t = TaskControlBlock::new(5, &vec![0u8; 9000]).unwrap();
    assert_eq!(t.getpid(), 5);
    assert_eq!(t.heap_bottom, 0x10000 + 0x3000 + 0x1000 + 0x2000);
    assert!(!t.is_zombie());
    assert_eq!(t.pass(), BIG_STRIDE / 16);
    assert_eq!(t.alloc_fd(), 3);
    assert_eq!(t.fd_table.len(), 4);
    t.fd_table[1] = None;
    assert_eq!(t.alloc_fd(), 1);
    assert!(t.exec(&Vec::new()));
    assert_eq!(t.memory_set.area_count(), 1);
    assert_eq!(t.memory_set.areas[0].start, 0x10000 + 0x1000);
    assert_eq!(t.trap_cx.sp, 0x10000 + 0x1000 + 0x2000);
}

#[test]
fn fork_copies_the_parent() {
    let mut kernel = booted();
    put(&mut kernel, BUF, b"inherited");
    assert_eq!(sys_mmap(&mut kernel, 0x100000, 4096, 3), 0);
    kernel.tasks[0].as_mut().unwrap().trap_cx.a0 = 77;
    let child = sys_fork(&mut kernel);
    assert_eq!(child, 1);
    assert_eq!(kernel.current_pid(), Some(0));
    let parent = kernel.tasks[0].as_ref().unwrap();
    let task = kernel.tasks[1].as_ref().unwrap();
    assert_eq!(parent.children, vec![1]);
    assert_eq!(parent.trap_cx.a0, 77);
    assert_eq!(task.pid, 1);
    assert_eq!(task.parent, Some(0));
    assert_eq!(task.status, TaskStatus::Ready);
    assert_eq!(task.trap_cx.a0, 0);
    assert_eq!(task.trap_cx.sepc, parent.trap_cx.sepc);
    assert_eq!(task.trap_cx.sp, parent.trap_cx.sp);
    assert_eq!(task.fd_table, parent.fd_table);
    assert_eq!(task.stride, 0);
    assert_eq!(task.priority, 16);
    assert_eq!(task.memory_set.area_count(), 3);
    assert_eq!(copy_from_user(&task.memory_set, BUF, 9), Some(b"inherited".to_vec()));
    assert_eq!(kernel.manager.ready_queue, vec![1]);
    // the copies are independent
    put(&mut kernel, BUF, b"CHANGED__");
    let task = kernel.tasks[1].as_ref().unwrap();
    assert_eq!(copy_from_user(&task.memory_set, BUF, 9), Some(b"inherited".to_vec()));
    assert_eq!(sys_fork(&mut kernel), 2);
    assert_eq!(kernel.tasks[0].as_ref().unwrap().children, vec![1, 2]);
}

#[test]
fn waitpid_without_children_returns_minus_one() {
    let mut kernel = booted();
    assert_eq!(sys_waitpid(&mut kernel, -1, BUF), -1);
    assert_eq!(sys_waitpid(&mut kernel, 1, BUF), -1);
    assert_eq!(sys_waitpid(&mut kernel, 0, BUF), -1);
}

#[test]
fn waitpid_right_after_fork_returns_minus_two() {
    let mut kernel = booted();
    let child = sys_fork(&mut kernel);
    assert_eq!(child, 1);
    assert_eq!(sys_waitpid(&mut kernel, child, BUF), -2);
    assert_eq!(sys_waitpid(&mut kernel, -1, BUF), -2);
    assert_eq!(sys_waitpid(&mut kernel, 2, BUF), -1);
    assert_eq!(kernel.tasks[0].as_ref().unwrap().children, vec![1]);
}

#[test]
fn waitpid_reaps_an_exited_child() {
    let mut kernel = booted();
    assert_eq!(sys_fork(&mut kernel), 1);
    assert_eq!(sys_waitpid(&mut kernel, -1, BUF), -2);
    switch_to(&mut kernel, 1);
    assert_eq!(sys_getpid(&kernel), 1);
    sys_exit(&mut kernel, -3);
    assert_eq!(kernel.current_pid(), Some(0));
    {
        let zombie = kernel.tasks[1].as_ref().unwrap();
        assert_eq!(zombie.status, TaskStatus::Zombie);
        assert_eq!(zombie.exit_code, -3);
        assert_eq!(zombie.memory_set.area_count(), 0);
    }
    put(&mut kernel, BUF, &[0xee; 8]);
    // a place that cannot be written reaps no one
    assert_eq!(sys_waitpid(&mut kernel, -1, 0x11000), -1);
    assert!(kernel.tasks[1].is_some());
    assert_eq!(sys_waitpid(&mut kernel, 7, BUF), -1);
    assert_eq!(sys_waitpid(&mut kernel, -1, BUF), 1);
    assert_eq!(get(&kernel, BUF, 8), vec![0xfd, 0xff, 0xff, 0xff, 0xee, 0xee, 0xee, 0xee]);
    assert!(kernel.tasks[1].is_none());
    assert_eq!(kernel.tasks[0].as_ref().unwrap().children, Vec::<usize>::new());
    assert_eq!(kernel.recycled, vec![1]);
    assert_eq!(sys_waitpid(&mut kernel, -1, BUF), -1);
    // the pid is handed out again
    assert_eq!(sys_fork(&mut kernel), 1);
    assert_eq!(kernel.recycled, Vec::<usize>::new());
    assert_eq!(sys_fork(&mut kernel), 2);
}

#[test]
fn waitpid_takes_the_first_zombie_in_child_order() {
    let mut kernel = booted();
    assert_eq!(sys_fork(&mut kernel), 1);
    assert_eq!(sys_fork(&mut kernel), 2);
    assert_eq!(sys_fork(&mut kernel), 3);
    switch_to(&mut kernel, 3);
    sys_exit(&mut kernel, 30);
    switch_to(&mut kernel, 2);
    sys_exit(&mut kernel, 20);
    switch_to(&mut kernel, 0);
    assert_eq!(sys_waitpid(&mut kernel, 1, BUF), -2);
    assert_eq!(sys_waitpid(&mut kernel, 3, BUF), 3);
    assert_eq!(get(&kernel, BUF, 4), vec![30, 0, 0, 0]);
    assert_eq!(kernel.tasks[0].as_ref().unwrap().children, vec![1, 2]);
    assert_eq!(sys_waitpid(&mut kernel, -1, BUF), 2);
    assert_eq!(get(&kernel, BUF, 4), vec![20, 0, 0, 0]);
    assert_eq!(sys_waitpid(&mut kernel, -1, BUF), -2);
    assert_eq!(kernel.recycled, vec![3, 2]);
}

#[test]
fn exit_hands_children_to_the_initial_task() {
    let mut kernel = booted();
    assert_eq!(sys_fork(&mut kernel), 1);
    switch_to(&mut kernel, 1);
    assert_eq!(sys_fork(&mut kernel), 2);
    assert_eq!(sys_fork(&mut kernel), 3);
    assert_eq!(kernel.tasks[1].as_ref().unwrap().children, vec![2, 3]);
    sys_exit(&mut kernel, 5);
    assert_eq!(kernel.tasks[0].as_ref().unwrap().children, vec![1, 2, 3]);
    assert_eq!(kernel.tasks[1].as_ref().unwrap().children, Vec::<usize>::new());
    assert_eq!(kernel.tasks[1].as_ref().unwrap().parent, Some(0));
    assert_eq!(kernel.tasks[2].as_ref().unwrap().parent, Some(0));
    assert_eq!(kernel.tasks[3].as_ref().unwrap().parent, Some(0));
    switch_to(&mut kernel, 0);
    assert_eq!(sys_waitpid(&mut kernel, -1, BUF), 1);
    assert_eq!(get(&kernel, BUF, 4), vec![5, 0, 0, 0]);
    assert_eq!(kernel.tasks[0].as_ref().unwrap().children, vec![2, 3]);
}

#[test]
fn exit_of_the_last_task_idles_the_processor() {
    let mut kernel = booted();
    sys_exit(&mut kernel, 0);
    assert_eq!(kernel.current_pid(), None);
    assert_eq!(kernel.tasks[0].as_ref().unwrap().status, TaskStatus::Zombie);
    assert_eq!(fetch_task(&mut kernel), None);
    assert!(!add_task(&mut kernel, 0));
    assert!(!add_task(&mut kernel, 9));
}

#[test]
fn exec_replaces_the_program() {
    let mut kernel = booted();
    let program: Vec<u8> = (0..5000u32).map(|i| (i % 200) as u8).collect();
    store_program(&mut kernel, b"prog", &program);
    assert_eq!(sys_mmap(&mut kernel, 0x100000, 4096, 3), 0);
    assert_eq!(sys_fork(&mut kernel), 1);
    let fds = kernel.tasks[0].as_ref().unwrap().fd_table.clone();
    put(&mut kernel, PATH, b"prog\0");
    assert_eq!(sys_exec(&mut kernel, PATH), 0);
    let task = kernel.tasks[0].as_ref().unwrap();
    assert_eq!(task.pid, 0);
    assert_eq!(task.fd_table, fds);
    assert_eq!(task.children, vec![1]);
    assert_eq!(task.memory_set.area_count(), 2);
    assert_eq!(task.memory_set.areas[0].data, program);
    assert_eq!(task.memory_set.areas[1].start, 0x10000 + 0x2000 + 0x1000);
    assert_eq!(task.trap_cx.sepc, 0x10000);
    assert_eq!(task.trap_cx.sp, 0x10000 + 0x2000 + 0x1000 + 0x2000);
    assert_eq!(task.program_brk, task.trap_cx.sp);
    assert_eq!(task.memory_set.permission_at(0x100000), None);
}

#[test]
fn exec_of_a_missing_program_keeps_the_old_one() {
    let mut kernel = booted();
    put(&mut kernel, PATH, b"nowhere\0");
    assert_eq!(sys_exec(&mut kernel, PATH), -1);
    assert_eq!(sys_exec(&mut kernel, 0x11000), -1);
    put(&mut kernel, PATH, b"/\0");
    assert_eq!(sys_exec(&mut kernel, PATH), -1);
    let task = kernel.tasks[0].as_ref().unwrap();
    assert_eq!(task.memory_set.areas[0].data, vec![1, 2, 3, 4]);
    assert_eq!(copy_from_user(&task.memory_set, PATH, 2), Some(b"/\0".to_vec()));
}

#[test]
fn spawn_starts_a_child_on_a_new_program() {
    let mut kernel = booted();
    store_program(&mut kernel, b"child", &[9, 8, 7]);
    put(&mut kernel, BUF, b"parent data");
    put(&mut kernel, PATH, b"child\0");
    let pid = sys_spawn(&mut kernel, PATH);
    assert_eq!(pid, 1);
    let parent = kernel.tasks[0].as_ref().unwrap();
    let child = kernel.tasks[1].as_ref().unwrap();
    assert_eq!(parent.children, vec![1]);
    assert_eq!(child.parent, Some(0));
    assert_eq!(child.status, TaskStatus::Ready);
    assert_eq!(child.memory_set.areas[0].data, vec![9, 8, 7]);
    assert_eq!(child.trap_cx.sepc, 0x10000);
    assert_eq!(child.trap_cx.a0, 0);
    assert_eq!(child.fd_table, parent.fd_table);
    assert_eq!(copy_from_user(&child.memory_set, BUF, 11), Some(vec![0u8; 11]));
    assert_eq!(kernel.manager.ready_queue, vec![1]);
    assert_eq!(sys_waitpid(&mut kernel, 1, BUF), -2);
    // no child for a program that is not there
    put(&mut kernel, PATH, b"absent\0");
    assert_eq!(sys_spawn(&mut kernel, PATH), -1);
    assert_eq!(kernel.tasks.len(), 2);
    assert_eq!(kernel.tasks[0].as_ref().unwrap().children, vec![1]);
}

#[test]
fn set_priority_needs_at_least_two() {
    let mut kernel = booted();
    assert_eq!(sys_set_priority(&mut kernel, 1), -1);
    assert_eq!(sys_set_priority(&mut kernel, 0), -1);
    assert_eq!(sys_set_priority(&mut kernel, -5), -1);
    assert_eq!(sys_set_priority(&mut kernel, isize::MIN), -1);
    assert_eq!(kernel.tasks[0].as_ref().unwrap().priority, 16);
    assert_eq!(sys_set_priority(&mut kernel, 2), 2);
    assert_eq!(kernel.tasks[0].as_ref().unwrap().priority, 2);
    assert_eq!(kernel.tasks[0].as_ref().unwrap().pass(), 1 << 31);
    assert_eq!(sys_set_priority(&mut kernel, isize::MAX), isize::MAX);
    assert_eq!(kernel.tasks[0].as_ref().unwrap().pass(), 0);
    assert_eq!(sys_set_priority(&mut kernel, 1 << 32), 1 << 32);
    assert_eq!(kernel.tasks[0].as_ref().unwrap().pass(), 1);
}

#[test]
fn get_time_stores_seconds_and_microseconds() {
    let mut kernel = booted();
    kernel.set_time(3_000_123);
    kernel.set_time(2_999_999);
    assert_eq!(sys_get_time(&mut kernel, BUF, 0), 0);
    let mut want = vec![3u8, 0, 0, 0, 0, 0, 0, 0];
    want.extend_from_slice(&[123, 0, 0, 0, 0, 0, 0, 0]);
    assert_eq!(get(&kernel, BUF, 16), want);
    assert_eq!(TimeVal { sec: 3, usec: 123 }.to_bytes(), want);
    let tv = TimeVal::from_us(61_000_001);
    assert_eq!((tv.sec, tv.usec), (61, 1));
    assert_eq!(sys_get_time(&mut kernel, 0x14000 - 15, 0), -1);
    assert_eq!(sys_get_time(&mut kernel, 0x14000 - 16, 99), 0);
}

#[test]
fn task_info_reports_status_counts_and_time() {
    let image: Vec<u8> = vec![1, 2, 3, 4];
    let mut kernel = Kernel::new(&image, IoState::new()).unwrap();
    kernel.set_time(5_000_000);
    kernel.run_next();
    assert_eq!(kernel.tasks[0].as_ref().unwrap().start_time, Some(5000));
    record_syscall(&mut kernel, 64);
    record_syscall(&mut kernel, 64);
    record_syscall(&mut kernel, 499);
    record_syscall(&mut kernel, 500);
    kernel.set_time(5_250_999);
    assert_eq!(sys_task_info(&mut kernel, BUF), 0);
    let bytes = get(&kernel, BUF, 2016);
    assert_eq!(&bytes[0..4], &[1, 0, 0, 0]);
    assert_eq!(&bytes[4 + 4 * 64..4 + 4 * 65], &[2, 0, 0, 0]);
    assert_eq!(&bytes[4 + 4 * 499..4 + 4 * 500], &[1, 0, 0, 0]);
    assert_eq!(&bytes[2004..2008], &[0, 0, 0, 0]);
    assert_eq!(&bytes[2008..2016], &[250, 0, 0, 0, 0, 0, 0, 0]);
    assert_eq!(bytes.iter().map(|b| *b as u32).sum::<u32>(), 1 + 2 + 1 + 250);
    let info = TaskInfo { status: TaskStatus::Zombie, syscall_times: vec![0x01020304; 500], time: 1 };
    let wire = info.to_bytes();
    assert_eq!(wire.len(), 2016);
    assert_eq!(&wire[0..8], &[2, 0, 0, 0, 4, 3, 2, 1]);
    assert_eq!(sys_task_info(&mut kernel, 0x14000 - 2015), -1);
}

#[test]
fn syscall_counters_stop_at_their_largest_value() {
    let mut kernel = booted();
    kernel.tasks[0].as_mut().unwrap().sys_times[7] = u32::MAX - 1;
    record_syscall(&mut kernel, 7);
    assert_eq!(kernel.tasks[0].as_ref().unwrap().sys_times[7], u32::MAX);
    record_syscall(&mut kernel, 7);
    assert_eq!(kernel.tasks[0].as_ref().unwrap().sys_times[7], u32::MAX);
}

#[test]
fn ready_queue_hands_out_the_smallest_stride() {
    let mut tasks: Vec<Option<TaskControlBlock>> = Vec::new();
    for (pid, stride) in [(0usize, 30u64), (1, 10), (2, 20), (3, 10)] {
        let mut t = TaskControlBlock::new(pid, &vec![0u8; 4]).unwrap();
        t.stride = stride;
        tasks.push(Some(t));
    }
    let mut manager = TaskManager::new();
    assert_eq!(manager.fetch(&tasks), None);
    for pid in [0usize, 3, 2, 1] {
        manager.add(pid);
    }
    assert_eq!(manager.len(), 4);
    assert_eq!(manager.fetch(&tasks), Some(3));
    assert_eq!(manager.ready_queue, vec![0, 2, 1]);
    assert_eq!(manager.fetch(&tasks), Some(1));
    assert_eq!(manager.fetch(&tasks), Some(2));
    assert_eq!(manager.fetch(&tasks), Some(0));
    assert_eq!(manager.fetch(&tasks), None);
}

#[test]
fn yield_goes_round_by_stride() {
    let mut kernel = booted();
    assert_eq!(sys_fork(&mut kernel), 1);
    assert_eq!(sys_fork(&mut kernel), 2);
    // strides: init one pass, the children none
    assert_eq!(sys_yield(&mut kernel), 0);
    assert_eq!(kernel.current_pid(), Some(1));
    assert_eq!(kernel.tasks[0].as_ref().unwrap().status, TaskStatus::Ready);
    assert_eq!(kernel.manager.ready_queue, vec![2, 0]);
    assert_eq!(sys_yield(&mut kernel), 0);
    assert_eq!(kernel.current_pid(), Some(2));
    assert_eq!(sys_yield(&mut kernel), 0);
    // all three have one pass now: the earliest queued runs
    assert_eq!(kernel.current_pid(), Some(0));
    assert_eq!(kernel.tasks[0].as_ref().unwrap().stride, 2 * 268435456);
    assert_eq!(kernel.tasks[1].as_ref().unwrap().stride, 268435456);
    // alone, a task gets the processor back
    let mut single = booted();
    assert_eq!(sys_yield(&mut single), 0);
    assert_eq!(single.current_pid(), Some(0));
    assert_eq!(single.tasks[0].as_ref().unwrap().stride, 2 * 268435456);
}

#[test]
fn higher_priority_is_dispatched_more_often() {
    let mut kernel = booted();
    assert_eq!(sys_fork(&mut kernel), 1);
    assert_eq!(sys_fork(&mut kernel), 2);
    switch_to(&mut kernel, 1);
    assert_eq!(sys_set_priority(&mut kernel, 4), 4);
    switch_to(&mut kernel, 2);
    assert_eq!(sys_set_priority(&mut kernel, 12), 12);
    switch_to(&mut kernel, 0);
    assert_eq!(sys_set_priority(&mut kernel, 2), 2);
    let mut runs = [0usize; 3];
    for _ in 0..900 {
        assert_eq!(sys_yield(&mut kernel), 0);
        runs[kernel.current_pid().unwrap()] += 1;
    }
    assert!(runs[0] > 0 && runs[1] > 0 && runs[2] > 0);
    assert!(runs[2] >= runs[1]);
    assert!(runs[1] >= runs[0]);
    // shares are in proportion to the priorities 2 : 4 : 12
    assert!(runs[0] >= 95 && runs[0] <= 105);
    assert!(runs[1] >= 195 && runs[1] <= 205);
    assert!(runs[2] >= 595 && runs[2] <= 605);
}

#[test]
fn strides_stop_at_their_largest_value() {
    let mut kernel = booted();
    kernel.tasks[0].as_mut().unwrap().stride = u64::MAX - 5;
    assert_eq!(sys_yield(&mut kernel), 0);
    assert_eq!(kernel.tasks[0].as_ref().unwrap().stride, u64::MAX);
    assert_eq!(sys_yield(&mut kernel), 0);
    assert_eq!(kernel.tasks[0].as_ref().unwrap().stride, u64::MAX);
}
