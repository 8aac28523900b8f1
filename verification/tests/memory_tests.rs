use rust_virtual_memory::memory::{Disk, FreeFrameList, PhysicalMemory};
use rust_virtual_memory::{BLOCK_SIZE, NUM_FRAMES, PAGE_SIZE, PM_SIZE};

#[test]
fn physical_memory_starts_zeroed() {
    let pm = PhysicalMemory::new();
    assert_eq!(pm.read(0), 0);
    assert_eq!(pm.read(PM_SIZE - 1), 0);
    let pm2 = PhysicalMemory::default();
    assert_eq!(pm2.read(12345), 0);
}

#[test]
fn physical_memory_write_then_read() {
    let mut pm = PhysicalMemory::new();
    pm.write(777, -42);
    assert_eq!(pm.read(777), -42);
    assert_eq!(pm.read(776), 0);
    assert_eq!(pm.read(778), 0);
}

#[test]
fn segment_entry_occupies_two_words() {
    let mut pm = PhysicalMemory::new();
    pm.set_segment_entry(6, 4000, 3);
    assert_eq!(pm.get_segment_size(6), 4000);
    assert_eq!(pm.get_segment_pt_location(6), 3);
    assert_eq!(pm.read(12), 4000);
    assert_eq!(pm.read(13), 3);
}

#[test]
fn page_entry_lies_in_its_frame() {
    let mut pm = PhysicalMemory::new();
    pm.set_page_entry(3, 10, 99);
    assert_eq!(pm.get_page_frame(3, 10), 99);
    assert_eq!(pm.read(3 * PAGE_SIZE + 10), 99);
}

#[test]
fn frame_to_address_multiplies_by_page_size() {
    assert_eq!(PhysicalMemory::frame_to_address(0), 0);
    assert_eq!(PhysicalMemory::frame_to_address(3), 1536);
    assert_eq!(PhysicalMemory::frame_to_address(1023), 1023 * 512);
}

#[test]
fn disk_write_then_read() {
    let mut disk = Disk::new();
    disk.write(5, 7, 123);
    assert_eq!(disk.read(5, 7), 123);
    assert_eq!(disk.read(5, 6), 0);
    assert_eq!(disk.read(4, 7), 0);
    let d2 = Disk::default();
    assert_eq!(d2.read(1023, BLOCK_SIZE - 1), 0);
}

#[test]
fn read_block_copies_one_block() {
    let mut disk = Disk::new();
    for i in 0..BLOCK_SIZE {
        disk.write(9, i, i as i32 + 1);
    }
    disk.write(10, 0, 55);
    let mut pm = PhysicalMemory::new();
    pm.write(999, 8);
    pm.write(1000 + BLOCK_SIZE, 9);
    disk.read_block(9, &mut pm, 1000);
    assert_eq!(pm.read(999), 8);
    assert_eq!(pm.read(1000), 1);
    assert_eq!(pm.read(1000 + 511), 512);
    assert_eq!(pm.read(1000 + BLOCK_SIZE), 9);
}

#[test]
fn load_into_frame() {
    let mut disk = Disk::new();
    disk.write(3, 0, -4);
    disk.write(3, 511, 17);
    let mut pm = PhysicalMemory::new();
    disk.load_pt_from_disk(3, 4, &mut pm);
    assert_eq!(pm.read(4 * 512), -4);
    assert_eq!(pm.read(4 * 512 + 511), 17);
    disk.load_page_from_disk(3, 6, &mut pm);
    assert_eq!(pm.read(6 * 512), -4);
    assert_eq!(pm.read(5 * 512), 0);
}

#[test]
fn free_list_hands_out_smallest_frame_first() {
    let mut ffl = FreeFrameList::new();
    assert_eq!(ffl.allocate(), Some(2));
    assert_eq!(ffl.allocate(), Some(3));
    assert_eq!(ffl.allocate(), Some(4));
    let mut d = FreeFrameList::default();
    assert_eq!(d.allocate(), Some(2));
}

#[test]
fn marked_frame_is_not_handed_out() {
    let mut ffl = FreeFrameList::new();
    ffl.mark_occupied(2);
    ffl.mark_occupied(4);
    assert_eq!(ffl.allocate(), Some(3));
    assert_eq!(ffl.allocate(), Some(5));
}

#[test]
fn marking_an_absent_frame_changes_nothing() {
    let mut ffl = FreeFrameList::new();
    ffl.mark_occupied(0);
    ffl.mark_occupied(1);
    ffl.mark_occupied(5000);
    assert_eq!(ffl.allocate(), Some(2));
}

#[test]
fn free_list_runs_out() {
    let mut ffl = FreeFrameList::new();
    let mut last = 0;
    for expected in 2..NUM_FRAMES as u32 {
        let f = ffl.allocate();
        assert_eq!(f, Some(expected));
        last = expected;
    }
    assert_eq!(last, 1023);
    assert_eq!(ffl.allocate(), None);
    assert_eq!(ffl.allocate(), None);
}

#[test]
fn allocation_order_over_a_call_sequence() {
    let mut ffl = FreeFrameList::new();
    let mut handed = Vec::new();
    let marked = [5u32, 2, 7, 3, 1000, 9];
    for (i, m) in marked.iter().enumerate() {
        ffl.mark_occupied(*m);
        if let Some(f) = ffl.allocate() {
            handed.push(f);
        }
        if i % 2 == 0 {
            if let Some(f) = ffl.allocate() {
                handed.push(f);
            }
        }
    }
    assert_eq!(handed, vec![2, 3, 4, 6, 8, 9, 10, 11, 12]);
    for w in handed.windows(2) {
        assert!(w[0] < w[1]);
    }
}
