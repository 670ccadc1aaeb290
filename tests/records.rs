use kernel_mm::address_space::AddressSpace;
use kernel_mm::buffer::read_view;
use kernel_mm::config::MAX_SYSCALL_NUM;
use kernel_mm::mapper::mmap;
use kernel_mm::memory::PhysMemory;
use kernel_mm::permission::{decode_permission, encode_permission, is_valid_permission, MapPermission};
use kernel_mm::record::{TaskInfo, TaskStatus, TimeVal, TASK_INFO_SIZE, TIME_VAL_SIZE};
use kernel_mm::syscall::{copy_out, sys_get_time, sys_sbrk, sys_task_info, sys_yield};
use kernel_mm::translate::translate_buffer;

fn two_pages() -> (AddressSpace, PhysMemory) {
    let mut space = AddressSpace::new();
    let mut mem = PhysMemory::new();
    assert_eq!(mmap(&mut space, &mut mem, 0x2000, 0x1000, 0b011), Ok(()));
    assert_eq!(mmap(&mut space, &mut mem, 0x5000, 0x1000, 0b011), Ok(()));
    assert_eq!(mmap(&mut space, &mut mem, 0x1000, 0x1000, 0b011), Ok(()));
    (space, mem)
}

#[test]
fn permission_codec() {
    assert!(is_valid_permission(1));
    assert!(is_valid_permission(7));
    assert!(!is_valid_permission(0));
    assert!(!is_valid_permission(8));
    assert!(!is_valid_permission(usize::MAX));
    assert_eq!(
        decode_permission(0b101),
        MapPermission { read: true, write: false, execute: true, user: false }
    );
    assert_eq!(
        encode_permission(MapPermission { read: false, write: true, execute: true, user: true }),
        0b110
    );
    for bits in 1..8 {
        assert_eq!(encode_permission(decode_permission(bits)), bits);
    }
}

#[test]
fn time_val_from_ms_and_bytes() {
    let t = TimeVal::from_ms(3_500_250);
    assert_eq!(t, TimeVal { sec: 3500, usec: 250_000 });
    let b = t.to_bytes();
    assert_eq!(b.len(), TIME_VAL_SIZE);
    assert_eq!(&b[0..8], &[0xac, 0x0d, 0, 0, 0, 0, 0, 0]);
    assert_eq!(&b[8..16], &[0x90, 0xd0, 0x03, 0, 0, 0, 0, 0]);
}

#[test]
fn get_time_straddling_two_pages() {
    let (space, mut mem) = two_pages();
    assert_eq!(sys_get_time(&space, &mut mem, 0x1ff8, 0, 3_500_250), 0);
    let view = translate_buffer(&space, 0x1ff8, TIME_VAL_SIZE).unwrap();
    assert_eq!(view.ranges.len(), 2);
    assert_eq!(read_view(&mem, &view), TimeVal { sec: 3500, usec: 250_000 }.to_bytes());
}

#[test]
fn get_time_on_unmapped_page_fails() {
    let (space, mut mem) = two_pages();
    assert_eq!(sys_get_time(&space, &mut mem, 0x2ffc, 0, 1000), -1);
    let f2 = space.lookup(2).unwrap().frame;
    assert_eq!(mem.read_byte(f2, 0xffc), 0);
}

#[test]
fn task_info_bytes_and_copy() {
    let mut times = [0u32; MAX_SYSCALL_NUM];
    times[0] = 7;
    times[MAX_SYSCALL_NUM - 1] = 0x0102_0304;
    let info = TaskInfo::new(TaskStatus::Running, times, 0x1234);
    let b = info.to_bytes();
    assert_eq!(b.len(), TASK_INFO_SIZE);
    assert_eq!(&b[0..4], &[2, 0, 0, 0]);
    assert_eq!(&b[4..8], &[7, 0, 0, 0]);
    assert_eq!(&b[2000..2004], &[4, 3, 2, 1]);
    assert_eq!(&b[2004..2008], &[0, 0, 0, 0]);
    assert_eq!(&b[2008..2016], &[0x34, 0x12, 0, 0, 0, 0, 0, 0]);

    let (space, mut mem) = two_pages();
    assert_eq!(sys_task_info(&space, &mut mem, 0x1c00, &info), 0);
    let view = translate_buffer(&space, 0x1c00, TASK_INFO_SIZE).unwrap();
    assert_eq!(view.ranges.len(), 2);
    assert_eq!(read_view(&mem, &view), b);
    assert_eq!(sys_task_info(&space, &mut mem, 0x2c00, &info), -1);
}

#[test]
fn copy_out_writes_user_buffer() {
    let (space, mut mem) = two_pages();
    let data = vec![9u8, 8, 7, 6];
    assert_eq!(copy_out(&space, &mut mem, 0x1ffe, &data), Ok(()));
    let f1 = space.lookup(1).unwrap().frame;
    let f2 = space.lookup(2).unwrap().frame;
    assert_eq!(mem.read_byte(f1, 0xffe), 9);
    assert_eq!(mem.read_byte(f1, 0xfff), 8);
    assert_eq!(mem.read_byte(f2, 0), 7);
    assert_eq!(mem.read_byte(f2, 1), 6);
}

#[test]
fn sbrk_and_yield_results() {
    assert_eq!(sys_sbrk(Some(0x8000)), 0x8000);
    assert_eq!(sys_sbrk(None), -1);
    assert_eq!(sys_yield(), 0);
}
