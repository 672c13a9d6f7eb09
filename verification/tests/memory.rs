use kernel_core::config::PAGE_SIZE;
use kernel_core::error::KernelError;
use kernel_core::kernel::Kernel;
use kernel_core::loader::{from_image, ProgramImage, Segment};
use kernel_core::mm::{page_ceil, MapPermission, MemorySet, PhysAddr};
use kernel_core::syscall::process::{sys_mmap, sys_munmap, sys_sbrk};

fn mem_image() -> ProgramImage {
    ProgramImage {
        entry: 0x10000,
        segments: vec![
            Segment {
                start_va: 0x10000,
                mem_size: 0x2000,
                perm: MapPermission { r: true, w: false, x: true, u: false },
                data: vec![0x13, 0, 0, 0],
            },
            Segment {
                start_va: 0x20000,
                mem_size: 0x3000,
                perm: MapPermission { r: true, w: true, x: false, u: false },
                data: b"hello".to_vec(),
            },
        ],
    }
}

fn mem_boot() -> Kernel {
    Kernel::new(&mem_image()).unwrap()
}

fn mem_of(kernel: &Kernel) -> &MemorySet {
    &kernel.tasks[1].as_ref().unwrap().memory_set
}

fn mem_snapshot(kernel: &Kernel) -> Vec<(usize, MapPermission, Vec<Vec<u8>>)> {
    mem_of(kernel)
        .areas
        .iter()
        .map(|a| (a.start_vpn, a.perm, a.frames.iter().map(|f| f.bytes.clone()).collect()))
        .collect()
}

#[test]
fn mmap_maps_zeroed_pages_with_the_named_access() {
    let mut k = mem_boot();
    assert_eq!(sys_mmap(&mut k, 0x100000, 2 * PAGE_SIZE, 3), 0);
    let area = mem_of(&k).areas.last().unwrap();
    assert_eq!(area.start_vpn, 0x100);
    assert_eq!(area.frames.len(), 2);
    assert_eq!(area.perm, MapPermission { r: true, w: true, x: false, u: true });
    assert_eq!(k.read_user(0x100000, 2 * PAGE_SIZE), Some(vec![0u8; 2 * PAGE_SIZE]));
    assert!(k.write_user(0x100ffe, &vec![1, 2, 3, 4]));
    assert_eq!(k.read_user(0x100ffd, 6), Some(vec![0, 1, 2, 3, 4, 0]));
}

#[test]
fn mmap_rounds_the_length_up_to_whole_pages() {
    let mut k = mem_boot();
    assert_eq!(sys_mmap(&mut k, 0x200000, 1, 1), 0);
    assert_eq!(mem_of(&k).areas.last().unwrap().frames.len(), 1);
    assert_eq!(sys_mmap(&mut k, 0x300000, PAGE_SIZE + 1, 1), 0);
    assert_eq!(mem_of(&k).areas.last().unwrap().frames.len(), 2);
    assert_eq!(page_ceil(0), 0);
    assert_eq!(page_ceil(1), 1);
    assert_eq!(page_ceil(4096), 1);
    assert_eq!(page_ceil(4097), 2);
}

#[test]
fn mmap_over_a_mapped_page_fails_and_changes_nothing() {
    let mut k = mem_boot();
    assert_eq!(sys_mmap(&mut k, 0x100000, 2 * PAGE_SIZE, 3), 0);
    assert!(k.write_user(0x100010, &vec![9, 9, 9]));
    let before = mem_snapshot(&k);
    assert_eq!(sys_mmap(&mut k, 0x101000, PAGE_SIZE, 1), -1);
    assert_eq!(sys_mmap(&mut k, 0xff000, 3 * PAGE_SIZE, 7), -1);
    assert_eq!(sys_mmap(&mut k, 0x20000, PAGE_SIZE, 3), -1);
    assert_eq!(mem_snapshot(&k), before);
    assert_eq!(
        k.tasks[1].as_mut().unwrap().memory_set.mmap(0x101000, PAGE_SIZE, 1),
        Err(KernelError::Overlap)
    );
    assert_eq!(mem_snapshot(&k), before);
}

#[test]
fn mmap_beside_a_mapped_range_succeeds() {
    let mut k = mem_boot();
    assert_eq!(sys_mmap(&mut k, 0x100000, 2 * PAGE_SIZE, 3), 0);
    assert_eq!(sys_mmap(&mut k, 0x102000, PAGE_SIZE, 1), 0);
    assert_eq!(sys_mmap(&mut k, 0xff000, PAGE_SIZE, 4), 0);
    assert_eq!(k.read_user(0x102000, 4), Some(vec![0, 0, 0, 0]));
}

#[test]
fn mmap_rejects_bad_arguments() {
    let mut k = mem_boot();
    let before = mem_snapshot(&k);
    assert_eq!(sys_mmap(&mut k, 0x100001, PAGE_SIZE, 3), -1);
    assert_eq!(sys_mmap(&mut k, 0x100000, PAGE_SIZE, 0), -1);
    assert_eq!(sys_mmap(&mut k, 0x100000, PAGE_SIZE, 8), -1);
    assert_eq!(sys_mmap(&mut k, 0x100000, PAGE_SIZE, 0x13), -1);
    assert_eq!(sys_mmap(&mut k, 0x100000, usize::MAX, 3), -1);
    assert_eq!(mem_snapshot(&k), before);
    let ms = &mut k.tasks[1].as_mut().unwrap().memory_set;
    assert_eq!(ms.mmap(0x100001, PAGE_SIZE, 3), Err(KernelError::InvalidArgument));
    assert_eq!(ms.mmap(0x100000, PAGE_SIZE, 0), Err(KernelError::InvalidArgument));
    assert_eq!(ms.mmap(0x100000, usize::MAX, 3), Err(KernelError::InvalidArgument));
    assert_eq!(ms.munmap(0x100001, PAGE_SIZE), Err(KernelError::InvalidArgument));
    assert_eq!(ms.munmap(0x100000, PAGE_SIZE), Err(KernelError::NotMapped));
}

#[test]
fn mmap_decodes_each_permission_bit() {
    let mut k = mem_boot();
    for port in 1..8usize {
        assert_eq!(sys_mmap(&mut k, 0x100000 + port * 0x10000, PAGE_SIZE, port), 0);
        assert_eq!(
            mem_of(&k).areas.last().unwrap().perm,
            MapPermission {
                r: port & 1 != 0,
                w: port & 2 != 0,
                x: port & 4 != 0,
                u: true
            }
        );
    }
}

#[test]
fn munmap_of_a_mapped_region_succeeds_exactly_once() {
    let mut k = mem_boot();
    let before = mem_snapshot(&k);
    assert_eq!(sys_mmap(&mut k, 0x100000, 3 * PAGE_SIZE, 3), 0);
    assert_eq!(sys_munmap(&mut k, 0x100000, 3 * PAGE_SIZE), 0);
    assert_eq!(mem_snapshot(&k), before);
    assert_eq!(sys_munmap(&mut k, 0x100000, 3 * PAGE_SIZE), -1);
    assert_eq!(mem_snapshot(&k), before);
}

#[test]
fn munmap_of_an_empty_range_always_succeeds() {
    let mut k = mem_boot();
    let before = mem_snapshot(&k);
    assert_eq!(sys_mmap(&mut k, 0x100000, 0, 3), 0);
    assert_eq!(sys_munmap(&mut k, 0x100000, 0), 0);
    assert_eq!(sys_munmap(&mut k, 0x100000, 0), 0);
    assert_eq!(mem_snapshot(&k), before);
}

#[test]
fn munmap_with_an_unmapped_page_fails_and_changes_nothing() {
    let mut k = mem_boot();
    assert_eq!(sys_mmap(&mut k, 0x100000, 2 * PAGE_SIZE, 3), 0);
    let before = mem_snapshot(&k);
    assert_eq!(sys_munmap(&mut k, 0x100000, 3 * PAGE_SIZE), -1);
    assert_eq!(sys_munmap(&mut k, 0xff000, 2 * PAGE_SIZE), -1);
    assert_eq!(sys_munmap(&mut k, 0x100800, PAGE_SIZE), -1);
    assert_eq!(mem_snapshot(&k), before);
}

#[test]
fn munmap_of_the_middle_splits_a_region() {
    let mut k = mem_boot();
    assert_eq!(sys_mmap(&mut k, 0x100000, 4 * PAGE_SIZE, 3), 0);
    assert!(k.write_user(0x100000, &vec![1]));
    assert!(k.write_user(0x103000, &vec![4]));
    assert_eq!(sys_munmap(&mut k, 0x101000, 2 * PAGE_SIZE), 0);
    assert_eq!(k.read_user(0x100000, 1), Some(vec![1]));
    assert_eq!(k.read_user(0x103000, 1), Some(vec![4]));
    assert_eq!(k.read_user(0x101000, 1), None);
    assert_eq!(k.read_user(0x102fff, 1), None);
    let ranges: Vec<(usize, usize)> =
        mem_of(&k).areas.iter().map(|a| (a.start_vpn, a.frames.len())).collect();
    assert_eq!(ranges, vec![(0x10, 2), (0x20, 3), (0x24, 2), (0x100, 1), (0x103, 1)]);
    assert_eq!(sys_mmap(&mut k, 0x101000, 2 * PAGE_SIZE, 1), 0);
}

#[test]
fn munmap_across_two_regions_trims_both() {
    let mut k = mem_boot();
    assert_eq!(sys_mmap(&mut k, 0x100000, 2 * PAGE_SIZE, 3), 0);
    assert_eq!(sys_mmap(&mut k, 0x102000, 2 * PAGE_SIZE, 1), 0);
    assert_eq!(sys_munmap(&mut k, 0x101000, 2 * PAGE_SIZE), 0);
    let ranges: Vec<(usize, usize)> =
        mem_of(&k).areas.iter().skip(3).map(|a| (a.start_vpn, a.frames.len())).collect();
    assert_eq!(ranges, vec![(0x100, 1), (0x103, 1)]);
}

#[test]
fn user_access_honours_permissions() {
    let mut k = mem_boot();
    assert_eq!(sys_mmap(&mut k, 0x100000, PAGE_SIZE, 1), 0);
    assert_eq!(sys_mmap(&mut k, 0x200000, PAGE_SIZE, 2), 0);
    assert!(!k.write_user(0x100000, &vec![1]));
    assert_eq!(k.read_user(0x100000, 1), Some(vec![0]));
    assert!(k.write_user(0x200000, &vec![1]));
    assert_eq!(k.read_user(0x200000, 1), None);
    assert_eq!(k.tasks[1].as_ref().unwrap().memory_set.areas.last().unwrap().frames[0].bytes[0], 1);
}

#[test]
fn a_write_that_reaches_an_unmapped_page_changes_nothing() {
    let mut k = mem_boot();
    assert_eq!(sys_mmap(&mut k, 0x100000, PAGE_SIZE, 3), 0);
    let before = mem_snapshot(&k);
    assert!(!k.write_user(0x100ffe, &vec![1, 2, 3]));
    assert!(!k.write_user(usize::MAX - 1, &vec![1, 2, 3]));
    assert_eq!(mem_snapshot(&k), before);
    assert_eq!(k.read_user(0x100ffe, 3), None);
    assert_eq!(k.read_user(0x100ffe, 2), Some(vec![0, 0]));
}

#[test]
fn translate_finds_region_frame_and_offset() {
    let k = mem_boot();
    let ms = mem_of(&k);
    assert_eq!(ms.translate(0x21004), Some(PhysAddr { area: 1, frame: 1, offset: 4 }));
    assert_eq!(ms.translate(0x10000), Some(PhysAddr { area: 0, frame: 0, offset: 0 }));
    assert_eq!(ms.translate(0x25fff), Some(PhysAddr { area: 2, frame: 1, offset: 0xfff }));
    assert_eq!(ms.translate(0x23000), None);
    assert_eq!(ms.translate(0), None);
    assert_eq!(ms.find_area(0x20), Some(1));
    assert_eq!(ms.find_area(0x23), None);
}

#[test]
fn strings_end_at_the_first_zero_byte() {
    let mut k = mem_boot();
    assert_eq!(k.read_user_str(0x20000), Some(b"hello".to_vec()));
    assert_eq!(k.read_user_str(0x20003), Some(b"lo".to_vec()));
    assert_eq!(k.read_user_str(0x20005), Some(vec![]));
    assert!(k.write_user(0x22ffe, &vec![b'a', b'b']));
    assert_eq!(k.read_user_str(0x22ffe), None);
    assert_eq!(k.read_user_str(0x50000), None);
}

#[test]
fn loading_an_image_lays_out_segments_and_stack() {
    let loaded = from_image(&mem_image()).unwrap();
    assert_eq!(loaded.entry, 0x10000);
    assert_eq!(loaded.user_sp, 0x26000);
    let ranges: Vec<(usize, usize)> =
        loaded.memory_set.areas.iter().map(|a| (a.start_vpn, a.frames.len())).collect();
    assert_eq!(ranges, vec![(0x10, 2), (0x20, 3), (0x24, 2)]);
    assert_eq!(
        loaded.memory_set.areas[0].perm,
        MapPermission { r: true, w: false, x: true, u: true }
    );
    assert_eq!(
        loaded.memory_set.areas[2].perm,
        MapPermission { r: true, w: true, x: false, u: true }
    );
    assert_eq!(&loaded.memory_set.areas[0].frames[0].bytes[..5], &[0x13, 0, 0, 0, 0]);
    assert_eq!(&loaded.memory_set.areas[1].frames[0].bytes[..6], b"hello\0");
    assert_eq!(loaded.memory_set.translate(0x23000), None);
}

#[test]
fn loading_rejects_images_that_do_not_fit() {
    let seg = |start_va: usize, mem_size: usize, data: Vec<u8>| Segment {
        start_va,
        mem_size,
        perm: MapPermission { r: true, w: true, x: false, u: false },
        data,
    };
    let overlapping =
        ProgramImage { entry: 0, segments: vec![seg(0x1000, 0x2000, vec![]), seg(0x2800, 0x100, vec![])] };
    assert!(from_image(&overlapping).is_none());
    let empty = ProgramImage { entry: 0, segments: vec![seg(0x1000, 0, vec![])] };
    assert!(from_image(&empty).is_none());
    let too_much = ProgramImage { entry: 0, segments: vec![seg(0x1000, 2, vec![1, 2, 3])] };
    assert!(from_image(&too_much).is_none());
    let beyond = ProgramImage { entry: 0, segments: vec![seg(usize::MAX - 10, 20, vec![])] };
    assert!(from_image(&beyond).is_none());
    let no_stack = ProgramImage { entry: 0, segments: vec![seg(usize::MAX - 0x2fff, 0x1000, vec![])] };
    assert!(from_image(&no_stack).is_none());
    assert!(Kernel::new(&overlapping).is_none());
    let unaligned = ProgramImage { entry: 7, segments: vec![seg(0x1ffe, 4, vec![1, 2, 3, 4])] };
    let loaded = from_image(&unaligned).unwrap();
    assert_eq!(loaded.memory_set.areas[0].start_vpn, 1);
    assert_eq!(loaded.memory_set.areas[0].frames.len(), 2);
    assert_eq!(loaded.memory_set.areas[0].frames[0].bytes[0xffe], 1);
    assert_eq!(loaded.memory_set.areas[0].frames[1].bytes[1], 4);
    assert_eq!(loaded.user_sp, 0x6000);
    let bare = from_image(&ProgramImage { entry: 0, segments: vec![] }).unwrap();
    assert_eq!(bare.user_sp, 0x3000);
}

#[test]
fn sbrk_moves_the_break_and_maps_heap_pages() {
    let mut k = mem_boot();
    assert_eq!(sys_sbrk(&mut k, 0), 0x26000);
    assert_eq!(sys_sbrk(&mut k, 10), 0x26000);
    assert_eq!(k.tasks[1].as_ref().unwrap().program_brk, 0x2600a);
    assert_eq!(k.read_user(0x26000, 10), Some(vec![0u8; 10]));
    assert!(k.write_user(0x26000, &vec![5; 10]));
    assert_eq!(sys_sbrk(&mut k, 0x2000), 0x2600a);
    assert_eq!(mem_of(&k).translate(0x28000).is_some(), true);
    assert_eq!(mem_of(&k).translate(0x29000), None);
    assert_eq!(sys_sbrk(&mut k, -0x2000), 0x2800a);
    assert_eq!(mem_of(&k).translate(0x27000), None);
    assert_eq!(k.read_user(0x26000, 10), Some(vec![5u8; 10]));
    assert_eq!(sys_sbrk(&mut k, -10), 0x2600a);
    assert_eq!(mem_of(&k).translate(0x26000), None);
    assert_eq!(k.tasks[1].as_ref().unwrap().program_brk, 0x26000);
}

#[test]
fn sbrk_fails_below_the_heap_and_into_mapped_pages() {
    let mut k = mem_boot();
    let before = mem_snapshot(&k);
    assert_eq!(sys_sbrk(&mut k, -1), -1);
    assert_eq!(sys_sbrk(&mut k, i32::MIN), -1);
    assert_eq!(sys_mmap(&mut k, 0x27000, PAGE_SIZE, 3), 0);
    assert_eq!(sys_sbrk(&mut k, 0x1001), -1);
    assert_eq!(sys_sbrk(&mut k, 0x1000), 0x26000);
    assert_eq!(sys_munmap(&mut k, 0x26000, PAGE_SIZE), 0);
    assert_eq!(sys_sbrk(&mut k, -0x1000), -1);
    assert_eq!(k.tasks[1].as_ref().unwrap().program_brk, 0x27000);
    assert_eq!(sys_munmap(&mut k, 0x27000, PAGE_SIZE), 0);
    assert_eq!(mem_snapshot(&k), before);
}

#[test]
fn a_copy_of_an_address_space_has_frames_of_its_own() {
    let k = mem_boot();
    let mut copy = mem_of(&k).duplicate();
    assert!(copy.write_bytes(0x20000, &b"HELLO".to_vec()));
    assert_eq!(copy.read_bytes(0x20000, 5), Some(b"HELLO".to_vec()));
    assert_eq!(mem_of(&k).read_bytes(0x20000, 5), Some(b"hello".to_vec()));
    assert!(copy.range_free(0x26, 0x100));
    assert!(!copy.range_free(0x25, 0x100));
    assert!(copy.range_all_mapped(0x20, 0x23));
    assert!(!copy.range_all_mapped(0x20, 0x24));
    assert!(copy.check_access(0x20000, 0x3000, true));
    assert!(!copy.check_access(0x10000, 1, true));
    assert!(copy.check_access(0x10000, 0x2000, false));
}
