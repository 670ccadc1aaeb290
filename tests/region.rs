use kernel_mm::address_space::AddressSpace;
use kernel_mm::mapper::{mmap, munmap, MmapError, MunmapError};
use kernel_mm::memory::PhysMemory;
use kernel_mm::permission::MapPermission;
use kernel_mm::syscall::{sys_mmap, sys_munmap};
use kernel_mm::translate::{translate_buffer, TranslateError};

const RW_USER: MapPermission = MapPermission { read: true, write: true, execute: false, user: true };

#[test]
fn example_scenario() {
    let mut space = AddressSpace::new();
    let mut mem = PhysMemory::new();
    assert_eq!(mmap(&mut space, &mut mem, 0x1000, 0x2000, 0b011), Ok(()));
    assert_eq!(space.lookup(1).unwrap().perm, RW_USER);
    assert_eq!(space.lookup(2).unwrap().perm, RW_USER);
    assert!(space.lookup(0).is_none());
    assert!(space.lookup(3).is_none());
    assert_eq!(mmap(&mut space, &mut mem, 0x2000, 0x1000, 0b001), Err(MmapError::Conflict));
    assert_eq!(munmap(&mut space, &mut mem, 0x1000, 0x2000), Ok(()));
    assert!(space.lookup(1).is_none());
    assert!(space.lookup(2).is_none());
    assert_eq!(munmap(&mut space, &mut mem, 0x1000, 0x2000), Err(MunmapError::NotMapped));
}

#[test]
fn mmap_maps_every_page_with_requested_permission() {
    let mut space = AddressSpace::new();
    let mut mem = PhysMemory::new();
    assert_eq!(mmap(&mut space, &mut mem, 0x10000, 0x2800, 0b101), Ok(()));
    let rx = MapPermission { read: true, write: false, execute: true, user: true };
    for vpn in 0x10..0x13 {
        assert_eq!(space.lookup(vpn).unwrap().perm, rx);
    }
    assert!(space.lookup(0x13).is_none());
    assert!(translate_buffer(&space, 0x10000, 0x3000).is_ok());
    assert_eq!(mem.frame_count(), 3);
}

#[test]
fn mmap_partial_last_page_is_mapped_whole() {
    let mut space = AddressSpace::new();
    let mut mem = PhysMemory::new();
    assert_eq!(mmap(&mut space, &mut mem, 0x4000, 1, 0b001), Ok(()));
    assert!(space.lookup(4).is_some());
    assert!(space.lookup(5).is_none());
    assert!(translate_buffer(&space, 0x4fff, 1).is_ok());
}

#[test]
fn mmap_empty_length_succeeds_and_maps_nothing() {
    let mut space = AddressSpace::new();
    let mut mem = PhysMemory::new();
    assert_eq!(mmap(&mut space, &mut mem, 0x1000, 0, 0b111), Ok(()));
    assert!(space.lookup(1).is_none());
    assert_eq!(mem.frame_count(), 0);
    assert!(translate_buffer(&space, 0x1000, 1).is_err());
}

#[test]
fn mmap_misaligned_start_fails_without_change() {
    let mut space = AddressSpace::new();
    let mut mem = PhysMemory::new();
    assert_eq!(mmap(&mut space, &mut mem, 0x1001, 0x1000, 0b011), Err(MmapError::Misaligned));
    assert_eq!(mmap(&mut space, &mut mem, 0x1001, 0, 0), Err(MmapError::Misaligned));
    assert!(space.lookup(1).is_none());
    assert_eq!(mem.frame_count(), 0);
}

#[test]
fn mmap_invalid_permission_fails() {
    let mut space = AddressSpace::new();
    let mut mem = PhysMemory::new();
    assert_eq!(mmap(&mut space, &mut mem, 0x1000, 0x1000, 0), Err(MmapError::InvalidPermission));
    assert_eq!(mmap(&mut space, &mut mem, 0x1000, 0x1000, 0b1000), Err(MmapError::InvalidPermission));
    assert_eq!(mmap(&mut space, &mut mem, 0x1000, 0x1000, 0b1011), Err(MmapError::InvalidPermission));
    assert!(space.lookup(1).is_none());
    assert_eq!(mem.frame_count(), 0);
}

#[test]
fn mmap_overlap_fails_and_keeps_first_mapping() {
    let mut space = AddressSpace::new();
    let mut mem = PhysMemory::new();
    assert_eq!(mmap(&mut space, &mut mem, 0x3000, 0x2000, 0b011), Ok(()));
    let f3 = space.lookup(3).unwrap();
    let f4 = space.lookup(4).unwrap();
    assert_eq!(mmap(&mut space, &mut mem, 0x1000, 0x3000, 0b001), Err(MmapError::Conflict));
    assert!(space.lookup(1).is_none());
    assert!(space.lookup(2).is_none());
    assert_eq!(space.lookup(3).unwrap(), f3);
    assert_eq!(space.lookup(4).unwrap(), f4);
    assert_eq!(mem.frame_count(), 2);
}

#[test]
fn munmap_after_mmap_makes_range_fault() {
    let mut space = AddressSpace::new();
    let mut mem = PhysMemory::new();
    assert_eq!(mmap(&mut space, &mut mem, 0x5000, 0x2000, 0b011), Ok(()));
    assert_eq!(munmap(&mut space, &mut mem, 0x5000, 0x2000), Ok(()));
    assert_eq!(translate_buffer(&space, 0x5000, 1).err(), Some(TranslateError::PageFault));
    assert_eq!(translate_buffer(&space, 0x6ff0, 8).err(), Some(TranslateError::PageFault));
}

#[test]
fn munmap_with_hole_fails_and_keeps_pages() {
    let mut space = AddressSpace::new();
    let mut mem = PhysMemory::new();
    assert_eq!(mmap(&mut space, &mut mem, 0x1000, 0x1000, 0b011), Ok(()));
    assert_eq!(mmap(&mut space, &mut mem, 0x3000, 0x1000, 0b011), Ok(()));
    assert_eq!(munmap(&mut space, &mut mem, 0x1000, 0x3000), Err(MunmapError::NotMapped));
    assert!(space.lookup(1).is_some());
    assert!(space.lookup(3).is_some());
}

#[test]
fn munmap_misaligned_and_empty() {
    let mut space = AddressSpace::new();
    let mut mem = PhysMemory::new();
    assert_eq!(munmap(&mut space, &mut mem, 0x1800, 0x1000), Err(MunmapError::Misaligned));
    assert_eq!(munmap(&mut space, &mut mem, 0x1000, 0), Ok(()));
}

#[test]
fn freed_frames_are_reused_zeroed() {
    let mut space = AddressSpace::new();
    let mut mem = PhysMemory::new();
    assert_eq!(mmap(&mut space, &mut mem, 0x1000, 0x1000, 0b011), Ok(()));
    let frame = space.lookup(1).unwrap().frame;
    mem.write_byte(frame, 7, 0xab);
    assert_eq!(munmap(&mut space, &mut mem, 0x1000, 0x1000), Ok(()));
    assert_eq!(mmap(&mut space, &mut mem, 0x8000, 0x1000, 0b011), Ok(()));
    assert_eq!(space.lookup(8).unwrap().frame, frame);
    assert_eq!(mem.read_byte(frame, 7), 0);
    assert_eq!(mem.frame_count(), 1);
}

#[test]
fn syscalls_flatten_errors() {
    let mut space = AddressSpace::new();
    let mut mem = PhysMemory::new();
    assert_eq!(sys_mmap(&mut space, &mut mem, 0x1000, 0x2000, 0b011), 0);
    assert_eq!(sys_mmap(&mut space, &mut mem, 0x2000, 0x1000, 0b001), -1);
    assert_eq!(sys_mmap(&mut space, &mut mem, 0x7001, 0x1000, 0b001), -1);
    assert_eq!(sys_mmap(&mut space, &mut mem, 0x7000, 0x1000, 0), -1);
    assert_eq!(sys_mmap(&mut space, &mut mem, usize::MAX - 0xfff, 0x2000, 0b001), -1);
    assert_eq!(sys_munmap(&mut space, &mut mem, 0x1000, 0x2000), 0);
    assert_eq!(sys_munmap(&mut space, &mut mem, 0x1000, 0x2000), -1);
    assert_eq!(sys_munmap(&mut space, &mut mem, usize::MAX - 0xfff, 0x2000), -1);
}
