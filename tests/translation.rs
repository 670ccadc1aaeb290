use kernel_mm::address_space::AddressSpace;
use kernel_mm::buffer::{read_view, write_view};
use kernel_mm::mapper::mmap;
use kernel_mm::memory::PhysMemory;
use kernel_mm::translate::{translate_buffer, PhysRange, TranslateError};

/// Maps pages 1 and 2 so that their frames are not adjacent.
fn fragmented() -> (AddressSpace, PhysMemory) {
    let mut space = AddressSpace::new();
    let mut mem = PhysMemory::new();
    assert_eq!(mmap(&mut space, &mut mem, 0x2000, 0x1000, 0b011), Ok(()));
    assert_eq!(mmap(&mut space, &mut mem, 0x9000, 0x1000, 0b011), Ok(()));
    assert_eq!(mmap(&mut space, &mut mem, 0x1000, 0x1000, 0b011), Ok(()));
    (space, mem)
}

#[test]
fn translate_empty_buffer_is_empty() {
    let space = AddressSpace::new();
    let view = translate_buffer(&space, 0x1234, 0).unwrap();
    assert!(view.ranges.is_empty());
}

#[test]
fn translate_within_one_page() {
    let (space, _mem) = fragmented();
    let f1 = space.lookup(1).unwrap().frame;
    let view = translate_buffer(&space, 0x1010, 0x20).unwrap();
    assert_eq!(view.ranges, vec![PhysRange { frame: f1, offset: 0x10, len: 0x20 }]);
}

#[test]
fn translate_across_two_pages_gives_two_runs() {
    let (space, _mem) = fragmented();
    let f1 = space.lookup(1).unwrap().frame;
    let f2 = space.lookup(2).unwrap().frame;
    assert_ne!(f1 + 1, f2);
    let view = translate_buffer(&space, 0x1ff8, 16).unwrap();
    assert_eq!(
        view.ranges,
        vec![
            PhysRange { frame: f1, offset: 0xff8, len: 8 },
            PhysRange { frame: f2, offset: 0, len: 8 },
        ]
    );
}

#[test]
fn translate_unmapped_page_faults() {
    let (space, _mem) = fragmented();
    assert_eq!(translate_buffer(&space, 0x2ff0, 0x20).err(), Some(TranslateError::PageFault));
    assert_eq!(translate_buffer(&space, 0x0, 1).err(), Some(TranslateError::PageFault));
    assert_eq!(translate_buffer(&space, usize::MAX, 2).err(), Some(TranslateError::PageFault));
}

#[test]
fn fragmented_view_reads_logical_bytes() {
    let (space, mut mem) = fragmented();
    let f1 = space.lookup(1).unwrap().frame;
    let f2 = space.lookup(2).unwrap().frame;
    for i in 0..4 {
        mem.write_byte(f1, 0xffc + i, 10 + i as u8);
        mem.write_byte(f2, i, 20 + i as u8);
    }
    let view = translate_buffer(&space, 0x1ffc, 8).unwrap();
    assert_eq!(view.ranges.len(), 2);
    assert_eq!(read_view(&mem, &view), vec![10, 11, 12, 13, 20, 21, 22, 23]);
}

#[test]
fn write_then_read_round_trips_without_execute() {
    let (space, mut mem) = fragmented();
    let view = translate_buffer(&space, 0x1ffa, 12).unwrap();
    assert_eq!(view.ranges.len(), 2);
    let data: Vec<u8> = (1..=12).collect();
    write_view(&mut mem, &view, &data);
    assert_eq!(read_view(&mem, &view), data);
    let f1 = space.lookup(1).unwrap().frame;
    let f2 = space.lookup(2).unwrap().frame;
    assert_eq!(mem.read_byte(f1, 0xffa), 1);
    assert_eq!(mem.read_byte(f2, 0), 7);
    assert_eq!(mem.read_byte(f2, 6), 0);
    assert_eq!(mem.read_byte(f1, 0xff9), 0);
}

#[test]
fn record_larger_than_a_page_spans_three_runs() {
    let mut space = AddressSpace::new();
    let mut mem = PhysMemory::new();
    assert_eq!(mmap(&mut space, &mut mem, 0x1000, 0x3000, 0b011), Ok(()));
    let view = translate_buffer(&space, 0x1800, 0x1900).unwrap();
    assert_eq!(view.ranges.len(), 3);
    assert_eq!(view.ranges[0].len, 0x800);
    assert_eq!(view.ranges[1].len, 0x1000);
    assert_eq!(view.ranges[2].len, 0x100);
    let data: Vec<u8> = (0..0x1900).map(|i| (i % 251) as u8).collect();
    write_view(&mut mem, &view, &data);
    assert_eq!(read_view(&mem, &view), data);
}
