use kernel_core::config::PAGE_SIZE;
use kernel_core::fs::IoState;
use kernel_core::mm::memory_set::{MapPermission, MemorySet};
use kernel_core::mm::user_buffer::{
    copy_from_user, copy_to_user, translated_byte_buffer, translated_str, Access, Segment,
};
use kernel_core::syscall::process::{sys_mmap, sys_munmap, sys_sbrk};
use kernel_core::task::kernel::Kernel;

fn booted() -> Kernel {
    let image: Vec<u8> = vec![1, 2, 3, 4];
    let mut kernel = Kernel::new(&image, IoState::new()).unwrap();
    kernel.run_next();
    kernel
}

fn rw() -> MapPermission {
    MapPermission { r: true, w: true, x: false, u: true }
}

#[test]
fn insert_framed_area_records_a_zeroed_area() {
    let mut ms = MemorySet::new_bare();
    assert!(ms.insert_framed_area(0x4000, 0x4000 + 100, rw()));
    assert_eq!(ms.area_count(), 1);
    assert_eq!(ms.areas[0].start, 0x4000);
    assert_eq!(ms.areas[0].end, 0x4000 + 100);
    assert_eq!(ms.areas[0].data, vec![0u8; 100]);
    assert_eq!(ms.permission_at(0x4000 + 99), Some(rw()));
    assert_eq!(ms.permission_at(0x4000 + 100), None);
    assert_eq!(ms.permission_at(0x3fff), None);
}

#[test]
fn insert_framed_area_refuses_bad_ranges() {
    let mut ms = MemorySet::new_bare();
    assert!(!ms.insert_framed_area(0x4001, 0x5000, rw()));
    assert!(!ms.insert_framed_area(0x4000, 0x4000, rw()));
    assert!(!ms.insert_framed_area(0x5000, 0x4000, rw()));
    assert!(ms.insert_framed_area(0x4000, 0x6000, rw()));
    assert!(!ms.insert_framed_area(0x5000, 0x7000, rw()));
    assert!(!ms.insert_framed_area(0x3000, 0x4001, rw()));
    assert!(ms.insert_framed_area(0x3000, 0x4000, rw()));
    assert!(ms.insert_framed_area(0x6000, 0x6001, rw()));
    assert_eq!(ms.area_count(), 3);
}

#[test]
fn is_conflict_range_tells_intersection() {
    let mut ms = MemorySet::new_bare();
    assert!(ms.insert_framed_area(0x4000, 0x6000, rw()));
    assert!(ms.is_conflict_range(0x4000, 0x6000));
    assert!(ms.is_conflict_range(0x5fff, 0x9000));
    assert!(ms.is_conflict_range(0x1000, 0x4001));
    assert!(ms.is_conflict_range(0x4800, 0x4801));
    assert!(!ms.is_conflict_range(0x6000, 0x7000));
    assert!(!ms.is_conflict_range(0x1000, 0x4000));
    assert!(!ms.is_conflict_range(0x5000, 0x5000));
}

#[test]
fn unmap_area_needs_an_exact_match() {
    let mut ms = MemorySet::new_bare();
    assert!(ms.insert_framed_area(0x4000, 0x6000, rw()));
    assert!(ms.insert_framed_area(0x8000, 0x9000, rw()));
    assert_eq!(ms.unmap_area(0x4000, 0x5000), -1);
    assert_eq!(ms.unmap_area(0x5000, 0x6000), -1);
    assert_eq!(ms.unmap_area(0x4000, 0x9000), -1);
    assert_eq!(ms.area_count(), 2);
    assert_eq!(ms.unmap_area(0x4000, 0x6000), 0);
    assert_eq!(ms.area_count(), 1);
    assert_eq!(ms.areas[0].start, 0x8000);
    assert_eq!(ms.unmap_area(0x4000, 0x6000), -1);
}

#[test]
fn user_buffer_is_split_at_page_boundaries() {
    let mut ms = MemorySet::new_bare();
    assert!(ms.insert_framed_area(0, 3 * PAGE_SIZE, rw()));
    let segs = translated_byte_buffer(&ms, 4090, 10, Access::Read).unwrap();
    assert_eq!(segs, vec![Segment { addr: 4090, len: 6 }, Segment { addr: 4096, len: 4 }]);
    let segs = translated_byte_buffer(&ms, 100, 2 * PAGE_SIZE, Access::Write).unwrap();
    assert_eq!(
        segs,
        vec![
            Segment { addr: 100, len: 3996 },
            Segment { addr: 4096, len: 4096 },
            Segment { addr: 8192, len: 100 },
        ]
    );
    let segs = translated_byte_buffer(&ms, 4096, 4096, Access::Read).unwrap();
    assert_eq!(segs, vec![Segment { addr: 4096, len: 4096 }]);
    assert_eq!(translated_byte_buffer(&ms, 77, 0, Access::Read), Some(vec![]));
}

#[test]
fn user_buffer_must_be_mapped_and_permitted() {
    let mut ms = MemorySet::new_bare();
    let ro = MapPermission { r: true, w: false, x: false, u: true };
    let kernel_only = MapPermission { r: true, w: true, x: false, u: false };
    assert!(ms.insert_framed_area(0x1000, 0x2000, rw()));
    assert!(ms.insert_framed_area(0x2000, 0x2800, ro));
    assert!(ms.insert_framed_area(0x5000, 0x6000, kernel_only));
    assert!(translated_byte_buffer(&ms, 0x1ff0, 0x20, Access::Read).is_some());
    assert!(translated_byte_buffer(&ms, 0x1ff0, 0x20, Access::Write).is_none());
    assert!(translated_byte_buffer(&ms, 0x27f0, 0x10, Access::Read).is_some());
    assert!(translated_byte_buffer(&ms, 0x27f0, 0x11, Access::Read).is_none());
    assert!(translated_byte_buffer(&ms, 0x0ff0, 0x20, Access::Read).is_none());
    assert!(translated_byte_buffer(&ms, 0x5000, 1, Access::Read).is_none());
    assert!(translated_byte_buffer(&ms, usize::MAX, 2, Access::Read).is_none());
}

#[test]
fn copy_to_user_then_from_user_crosses_pages() {
    let mut ms = MemorySet::new_bare();
    assert!(ms.insert_framed_area(0x1000, 0x2000, rw()));
    assert!(ms.insert_framed_area(0x2000, 0x3000, rw()));
    let data: Vec<u8> = (0..200u32).map(|i| (i % 251) as u8 + 1).collect();
    assert!(copy_to_user(&mut ms, 0x2000 - 100, &data));
    assert_eq!(copy_from_user(&ms, 0x2000 - 100, 200), Some(data.clone()));
    assert_eq!(ms.areas[0].data[0x1000 - 100], data[0]);
    assert_eq!(ms.areas[1].data[99], data[199]);
    assert_eq!(ms.areas[1].data[100], 0);
    assert_eq!(ms.areas[0].data[0x1000 - 101], 0);
    // a failing copy changes nothing
    assert!(!copy_to_user(&mut ms, 0x3000 - 10, &data));
    assert_eq!(ms.areas[1].data[0x1000 - 10], 0);
    assert_eq!(copy_from_user(&ms, 0x3000 - 10, 11), None);
}

#[test]
fn translated_str_reads_up_to_the_terminator() {
    let mut ms = MemorySet::new_bare();
    assert!(ms.insert_framed_area(0x1000, 0x2000, rw()));
    assert!(copy_to_user(&mut ms, 0x1ffa, &b"hello\0".to_vec()));
    assert_eq!(translated_str(&ms, 0x1ffa), Some(b"hello".to_vec()));
    assert_eq!(translated_str(&ms, 0x1ffd), Some(b"lo".to_vec()));
    assert_eq!(translated_str(&ms, 0x1fff), Some(vec![]));
    // no terminator before the end of the mapping
    assert!(copy_to_user(&mut ms, 0x1ffa, &b"hello!".to_vec()));
    assert_eq!(translated_str(&ms, 0x1ffa), None);
    assert_eq!(translated_str(&ms, 0x9000), None);
}

#[test]
fn mmap_maps_with_the_permissions_asked_for() {
    let mut kernel = booted();
    assert_eq!(sys_mmap(&mut kernel, 0x100000, 8192, 3), 0);
    let task = kernel.tasks[0].as_ref().unwrap();
    let want = MapPermission { r: true, w: true, x: false, u: true };
    assert_eq!(task.memory_set.permission_at(0x100000), Some(want));
    assert_eq!(task.memory_set.permission_at(0x100000 + 8191), Some(want));
    assert_eq!(task.memory_set.permission_at(0x100000 + 8192), None);
    assert!(translated_byte_buffer(&task.memory_set, 0x100000, 8192, Access::Write).is_some());
    assert_eq!(copy_from_user(&task.memory_set, 0x100000, 8192), Some(vec![0u8; 8192]));
}

#[test]
fn mmap_without_read_bit_maps_an_unreadable_area() {
    let mut kernel = booted();
    assert_eq!(sys_mmap(&mut kernel, 0x100000, 4096, 2), 0);
    assert_eq!(sys_mmap(&mut kernel, 0x200000, 4096, 4), 0);
    let task = kernel.tasks[0].as_ref().unwrap();
    assert_eq!(
        task.memory_set.permission_at(0x100000),
        Some(MapPermission { r: false, w: true, x: false, u: true })
    );
    assert_eq!(
        task.memory_set.permission_at(0x200000),
        Some(MapPermission { r: false, w: false, x: true, u: true })
    );
    assert!(translated_byte_buffer(&task.memory_set, 0x100000, 16, Access::Read).is_none());
    assert!(translated_byte_buffer(&task.memory_set, 0x100000, 16, Access::Write).is_some());
    assert!(translated_byte_buffer(&task.memory_set, 0x200000, 16, Access::Write).is_none());
}

#[test]
fn mmap_rejects_bad_arguments() {
    let mut kernel = booted();
    let before = kernel.tasks[0].as_ref().unwrap().memory_set.area_count();
    assert_eq!(sys_mmap(&mut kernel, 0x100001, 4096, 3), -1);
    assert_eq!(sys_mmap(&mut kernel, 0x100000, 4096, 0), -1);
    assert_eq!(sys_mmap(&mut kernel, 0x100000, 4096, 8), -1);
    assert_eq!(sys_mmap(&mut kernel, 0x100000, 4096, 11), -1);
    assert_eq!(sys_mmap(&mut kernel, 0x100000, 0, 3), -1);
    assert_eq!(sys_mmap(&mut kernel, 0x100000, usize::MAX, 3), -1);
    assert_eq!(kernel.tasks[0].as_ref().unwrap().memory_set.area_count(), before);
    assert_eq!(sys_mmap(&mut kernel, 0x100000, 4096, 7), 0);
    assert_eq!(kernel.tasks[0].as_ref().unwrap().memory_set.area_count(), before + 1);
}

#[test]
fn mmap_rejects_overlap_and_keeps_the_first_mapping() {
    let mut kernel = booted();
    assert_eq!(sys_mmap(&mut kernel, 0x100000, 3 * 4096, 3), 0);
    {
        let task = kernel.tasks[0].as_mut().unwrap();
        assert!(copy_to_user(&mut task.memory_set, 0x100000 + 4096, &vec![9u8; 8]));
    }
    let count = kernel.tasks[0].as_ref().unwrap().memory_set.area_count();
    assert_eq!(sys_mmap(&mut kernel, 0x100000, 3 * 4096, 1), -1);
    assert_eq!(sys_mmap(&mut kernel, 0x100000 + 4096, 4096, 1), -1);
    assert_eq!(sys_mmap(&mut kernel, 0x100000 - 4096, 4097, 1), -1);
    assert_eq!(sys_mmap(&mut kernel, 0x100000 + 2 * 4096, 2 * 4096, 1), -1);
    // the image and the stack are mapped, too
    assert_eq!(sys_mmap(&mut kernel, 0x10000, 4096, 1), -1);
    let task = kernel.tasks[0].as_ref().unwrap();
    assert_eq!(task.memory_set.area_count(), count);
    assert_eq!(
        task.memory_set.permission_at(0x100000 + 4096),
        Some(MapPermission { r: true, w: true, x: false, u: true })
    );
    assert_eq!(copy_from_user(&task.memory_set, 0x100000 + 4096, 8), Some(vec![9u8; 8]));
    assert_eq!(sys_mmap(&mut kernel, 0x100000 + 3 * 4096, 4096, 1), 0);
    assert_eq!(sys_mmap(&mut kernel, 0x100000 - 4096, 4096, 1), 0);
}

#[test]
fn munmap_removes_exact_matches_only() {
    let mut kernel = booted();
    assert_eq!(sys_mmap(&mut kernel, 0x100000, 2 * 4096, 3), 0);
    assert_eq!(sys_munmap(&mut kernel, 0x100000, 4096), -1);
    assert_eq!(sys_munmap(&mut kernel, 0x100000 + 4096, 4096), -1);
    assert_eq!(sys_munmap(&mut kernel, 0x100000, 3 * 4096), -1);
    assert_eq!(sys_munmap(&mut kernel, 0x100001, 2 * 4096), -1);
    assert_eq!(sys_munmap(&mut kernel, 0x300000, 4096), -1);
    assert_eq!(sys_munmap(&mut kernel, 0x100000, usize::MAX), -1);
    assert!(kernel.tasks[0].as_ref().unwrap().memory_set.permission_at(0x100000).is_some());
    assert_eq!(sys_munmap(&mut kernel, 0x100000, 2 * 4096), 0);
    assert!(kernel.tasks[0].as_ref().unwrap().memory_set.permission_at(0x100000).is_none());
    assert_eq!(sys_munmap(&mut kernel, 0x100000, 2 * 4096), -1);
    // the range is free again
    assert_eq!(sys_mmap(&mut kernel, 0x100000, 2 * 4096, 1), 0);
    assert_eq!(
        kernel.tasks[0].as_ref().unwrap().memory_set.permission_at(0x100000),
        Some(MapPermission { r: true, w: false, x: false, u: true })
    );
}

#[test]
fn image_and_stack_are_laid_out_at_boot() {
    let kernel = booted();
    let task = kernel.tasks[0].as_ref().unwrap();
    assert_eq!(task.memory_set.area_count(), 2);
    assert_eq!(task.memory_set.areas[0].start, 0x10000);
    assert_eq!(task.memory_set.areas[0].end, 0x10004);
    assert_eq!(task.memory_set.areas[0].data, vec![1, 2, 3, 4]);
    assert_eq!(task.memory_set.areas[1].start, 0x12000);
    assert_eq!(task.memory_set.areas[1].end, 0x14000);
    assert_eq!(task.trap_cx.sepc, 0x10000);
    assert_eq!(task.trap_cx.sp, 0x14000);
    assert_eq!(task.heap_bottom, 0x14000);
    assert_eq!(task.program_brk, 0x14000);
    // the guard page below the stack is not mapped
    assert_eq!(task.memory_set.permission_at(0x11000), None);
    assert_eq!(task.memory_set.permission_at(0x11fff), None);
}

#[test]
fn sbrk_grows_and_shrinks_the_heap() {
    let mut kernel = booted();
    assert_eq!(sys_sbrk(&mut kernel, 0), 0x14000);
    assert_eq!(sys_sbrk(&mut kernel, 100), 0x14000);
    assert_eq!(sys_sbrk(&mut kernel, 0), 0x14000 + 100);
    {
        let task = kernel.tasks[0].as_ref().unwrap();
        assert_eq!(
            task.memory_set.permission_at(0x14000 + 99),
            Some(MapPermission { r: true, w: true, x: false, u: true })
        );
        assert_eq!(task.memory_set.permission_at(0x14000 + 100), None);
    }
    assert_eq!(sys_sbrk(&mut kernel, 5000), 0x14000 + 100);
    {
        let task = kernel.tasks[0].as_mut().unwrap();
        assert!(copy_to_user(&mut task.memory_set, 0x14000 + 5000, &vec![7u8; 100]));
    }
    assert_eq!(sys_sbrk(&mut kernel, -50), 0x14000 + 5100);
    {
        let task = kernel.tasks[0].as_ref().unwrap();
        assert_eq!(copy_from_user(&task.memory_set, 0x14000 + 5000, 50), Some(vec![7u8; 50]));
        assert_eq!(task.memory_set.permission_at(0x14000 + 5050), None);
    }
    // below the floor of the heap
    assert_eq!(sys_sbrk(&mut kernel, -5051), -1);
    assert_eq!(sys_sbrk(&mut kernel, 0), 0x14000 + 5050);
    assert_eq!(sys_sbrk(&mut kernel, -5050), 0x14000 + 5050);
    assert_eq!(sys_sbrk(&mut kernel, 0), 0x14000);
    assert_eq!(kernel.tasks[0].as_ref().unwrap().memory_set.area_count(), 2);
    assert_eq!(sys_sbrk(&mut kernel, -1), -1);
}

#[test]
fn sbrk_cannot_grow_into_a_mapping() {
    let mut kernel = booted();
    assert_eq!(sys_mmap(&mut kernel, 0x16000, 4096, 3), 0);
    assert_eq!(sys_sbrk(&mut kernel, 0x2000), 0x14000);
    assert_eq!(sys_sbrk(&mut kernel, 1), -1);
    assert_eq!(sys_sbrk(&mut kernel, 0), 0x16000);
    // the heap area was unmapped behind the back of the break
    assert_eq!(sys_munmap(&mut kernel, 0x14000, 0x2000), 0);
    assert_eq!(sys_sbrk(&mut kernel, -16), -1);
    assert_eq!(sys_sbrk(&mut kernel, 0), 0x16000);
}
