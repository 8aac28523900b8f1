use rust_virtual_memory::memory::{Disk, FreeFrameList, PhysicalMemory};
use rust_virtual_memory::translation::{
    translate, translate_batch, translate_batch_with_demand_paging, translate_with_demand_paging,
    try_translate, try_translate_batch, try_translate_batch_with_demand_paging,
    try_translate_with_demand_paging,
};
use rust_virtual_memory::{TranslationResult, VirtualAddress, INVALID_ADDRESS};

fn raw(s: u32, p: u32, w: u32) -> u32 {
    (s << 18) | (p << 9) | w
}

#[test]
fn from_raw_splits_fields() {
    let va = VirtualAddress::from_raw(raw(5, 7, 11));
    assert_eq!(va, VirtualAddress { s: 5, p: 7, w: 11, pw: 7 * 512 + 11 });
    let top = VirtualAddress::from_raw(u32::MAX);
    assert_eq!(top, VirtualAddress { s: 16383, p: 511, w: 511, pw: 262143 });
    let zero = VirtualAddress::from_raw(0);
    assert_eq!(zero, VirtualAddress { s: 0, p: 0, w: 0, pw: 0 });
}

#[test]
fn from_raw_fields_reassemble() {
    for va in [0u32, 1, 511, 512, 262143, 262144, 789_123, 4_000_000_000, u32::MAX] {
        let d = VirtualAddress::from_raw(va);
        assert_eq!(d.s * 262144 + d.p * 512 + d.w, va);
        assert_eq!(d.pw, d.p * 512 + d.w);
    }
}

#[test]
fn to_output_of_each_variant() {
    assert_eq!(TranslationResult::Success(5125).to_output(), 5125);
    assert_eq!(TranslationResult::SegmentBoundaryViolation.to_output(), INVALID_ADDRESS);
    assert_eq!(TranslationResult::InvalidSegment.to_output(), -1);
    assert_eq!(TranslationResult::InvalidPage.to_output(), -1);
}

fn resident_memory() -> PhysicalMemory {
    let mut pm = PhysicalMemory::new();
    // segment 1: 4096 words, page table in frame 2; page 3 in frame 10
    pm.set_segment_entry(1, 4096, 2);
    pm.set_page_entry(2, 3, 10);
    // segment 2: size 512, no page table
    pm.set_segment_entry(2, 512, 0);
    // segment 3: size 1000, page table location 0 but size set
    pm.set_segment_entry(3, 1000, -7);
    pm
}

#[test]
fn translate_success() {
    let pm = resident_memory();
    let va = VirtualAddress::from_raw(raw(1, 3, 5));
    assert_eq!(translate(&va, &pm), TranslationResult::Success(10 * 512 + 5));
    assert_eq!(try_translate(&va, &pm), Some(TranslationResult::Success(5125)));
}

#[test]
fn translate_failures() {
    let pm = resident_memory();
    // segment 0 has size 0 and location 0
    assert_eq!(translate(&VirtualAddress::from_raw(raw(0, 0, 0)), &pm), TranslationResult::InvalidSegment);
    // offset 4096 in a segment of 4096 words
    assert_eq!(
        translate(&VirtualAddress::from_raw(raw(1, 8, 0)), &pm),
        TranslationResult::SegmentBoundaryViolation
    );
    // size set but no page table
    assert_eq!(translate(&VirtualAddress::from_raw(raw(2, 0, 3)), &pm), TranslationResult::InvalidSegment);
    // page table on disk: plain translation treats it as invalid
    assert_eq!(translate(&VirtualAddress::from_raw(raw(3, 0, 3)), &pm), TranslationResult::InvalidSegment);
    // page 4 of segment 1 is not present
    assert_eq!(translate(&VirtualAddress::from_raw(raw(1, 4, 0)), &pm), TranslationResult::InvalidPage);
}

#[test]
fn negative_size_reads_as_large_unsigned() {
    let mut pm = PhysicalMemory::new();
    pm.set_segment_entry(4, -1, 2);
    pm.set_page_entry(2, 511, 20);
    let va = VirtualAddress::from_raw(raw(4, 511, 511));
    assert_eq!(translate(&va, &pm), TranslationResult::Success(20 * 512 + 511));
}

#[test]
fn try_translate_reports_undefined_lookup() {
    let mut pm = PhysicalMemory::new();
    pm.set_segment_entry(1, 4096, 5000);
    let va = VirtualAddress::from_raw(raw(1, 0, 0));
    assert_eq!(try_translate(&va, &pm), None);
    let far = VirtualAddress { s: 300_000, p: 0, w: 0, pw: 0 };
    assert_eq!(try_translate(&far, &pm), None);
}

#[test]
fn translate_batch_outputs() {
    let pm = resident_memory();
    let vas = [raw(1, 3, 5), raw(0, 0, 0), raw(1, 3, 511), raw(1, 8, 0)];
    assert_eq!(translate_batch(&vas, &pm), vec![5125, -1, 5631, -1]);
    assert_eq!(try_translate_batch(&vas, &pm), Some(vec![5125, -1, 5631, -1]));
    assert_eq!(translate_batch(&[], &pm), Vec::<i32>::new());
}

#[test]
fn try_translate_batch_reports_undefined() {
    let mut pm = resident_memory();
    pm.set_segment_entry(6, 4096, 2000);
    let vas = [raw(1, 3, 5), raw(6, 0, 0)];
    assert_eq!(try_translate_batch(&vas, &pm), None);
}

fn paged_setup() -> (PhysicalMemory, Disk, FreeFrameList) {
    let mut pm = PhysicalMemory::new();
    let mut disk = Disk::new();
    // segment 5: page table in disk block 7; its page 2 is in disk block 9
    pm.set_segment_entry(5, 2048, -7);
    disk.write(7, 2, -9);
    disk.write(7, 1, 0);
    disk.write(9, 4, 4321);
    // segment 6: resident page table in frame 2, page 0 in disk block 11
    pm.set_segment_entry(6, 512, 2);
    pm.set_page_entry(2, 0, -11);
    let mut ffl = FreeFrameList::new();
    ffl.mark_occupied(2);
    (pm, disk, ffl)
}

#[test]
fn demand_paging_brings_in_table_and_page() {
    let (mut pm, disk, mut ffl) = paged_setup();
    let va = VirtualAddress::from_raw(raw(5, 2, 4));
    let r = translate_with_demand_paging(&va, &mut pm, &disk, &mut ffl);
    // the page table goes to frame 3, the page to frame 4
    assert_eq!(r, TranslationResult::Success(4 * 512 + 4));
    assert_eq!(pm.get_segment_pt_location(5), 3);
    assert_eq!(pm.get_segment_size(5), 2048);
    assert_eq!(pm.get_page_frame(3, 2), 4);
    assert_eq!(pm.read(4 * 512 + 4), 4321);
    assert_eq!(ffl.allocate(), Some(5));
}

#[test]
fn demand_paging_repeat_changes_nothing() {
    let (mut pm, disk, mut ffl) = paged_setup();
    let va = VirtualAddress::from_raw(raw(5, 2, 4));
    let first = translate_with_demand_paging(&va, &mut pm, &disk, &mut ffl);
    let second = translate_with_demand_paging(&va, &mut pm, &disk, &mut ffl);
    assert_eq!(first, second);
    assert_eq!(translate(&va, &pm), first);
    assert_eq!(ffl.allocate(), Some(5));
}

#[test]
fn demand_paging_page_only() {
    let (mut pm, disk, mut ffl) = paged_setup();
    let va = VirtualAddress::from_raw(raw(6, 0, 9));
    let r = translate_with_demand_paging(&va, &mut pm, &disk, &mut ffl);
    assert_eq!(r, TranslationResult::Success(3 * 512 + 9));
    assert_eq!(pm.get_page_frame(2, 0), 3);
    assert_eq!(translate(&va, &pm), r);
}

#[test]
fn demand_paging_agrees_when_resident() {
    let mut pm = resident_memory();
    let disk = Disk::new();
    let mut ffl = FreeFrameList::new();
    for va in [raw(1, 3, 5), raw(0, 0, 0), raw(1, 8, 0), raw(1, 4, 0)] {
        let v = VirtualAddress::from_raw(va);
        let plain = translate(&v, &pm);
        assert_eq!(translate_with_demand_paging(&v, &mut pm, &disk, &mut ffl), plain);
    }
    assert_eq!(ffl.allocate(), Some(2));
}

#[test]
fn demand_paging_with_no_free_frame() {
    let (mut pm, disk, mut ffl) = paged_setup();
    while ffl.allocate().is_some() {}
    let va = VirtualAddress::from_raw(raw(5, 2, 4));
    assert_eq!(
        translate_with_demand_paging(&va, &mut pm, &disk, &mut ffl),
        TranslationResult::InvalidSegment
    );
    let va6 = VirtualAddress::from_raw(raw(6, 0, 0));
    assert_eq!(
        translate_with_demand_paging(&va6, &mut pm, &disk, &mut ffl),
        TranslationResult::InvalidPage
    );
    assert_eq!(pm.get_segment_pt_location(5), -7);
}

#[test]
fn demand_paging_table_in_but_no_frame_for_page() {
    let (mut pm, disk, mut ffl) = paged_setup();
    for _ in 3..1023 {
        ffl.allocate();
    }
    // one frame (1023) left: the table takes it, the page finds none
    let va = VirtualAddress::from_raw(raw(5, 2, 4));
    assert_eq!(
        translate_with_demand_paging(&va, &mut pm, &disk, &mut ffl),
        TranslationResult::InvalidPage
    );
    assert_eq!(pm.get_segment_pt_location(5), 1023);
    assert_eq!(
        translate_with_demand_paging(&va, &mut pm, &disk, &mut ffl),
        TranslationResult::InvalidPage
    );
}

#[test]
fn demand_paging_zero_entry_is_invalid_page() {
    let (mut pm, disk, mut ffl) = paged_setup();
    let va = VirtualAddress::from_raw(raw(5, 1, 0));
    assert_eq!(
        translate_with_demand_paging(&va, &mut pm, &disk, &mut ffl),
        TranslationResult::InvalidPage
    );
}

#[test]
fn try_demand_paging_reports_block_beyond_disk() {
    let mut pm = PhysicalMemory::new();
    let disk = Disk::new();
    let mut ffl = FreeFrameList::new();
    pm.set_segment_entry(1, 512, -5000);
    let va = VirtualAddress::from_raw(raw(1, 0, 0));
    assert_eq!(try_translate_with_demand_paging(&va, &mut pm, &disk, &mut ffl), None);
    pm.set_segment_entry(2, 512, i32::MIN);
    let va2 = VirtualAddress::from_raw(raw(2, 0, 0));
    assert_eq!(try_translate_with_demand_paging(&va2, &mut pm, &disk, &mut ffl), None);
}

#[test]
fn demand_batch_runs_in_order() {
    let (mut pm, disk, mut ffl) = paged_setup();
    let vas = [raw(5, 2, 4), raw(5, 2, 5), raw(6, 0, 1), raw(0, 0, 0)];
    let out = translate_batch_with_demand_paging(&vas, &mut pm, &disk, &mut ffl);
    assert_eq!(out, vec![4 * 512 + 4, 4 * 512 + 5, 5 * 512 + 1, -1]);
    assert_eq!(ffl.allocate(), Some(6));
}

#[test]
fn try_demand_batch_matches_and_reports() {
    let (mut pm, disk, mut ffl) = paged_setup();
    let vas = [raw(5, 2, 4), raw(6, 0, 1)];
    assert_eq!(
        try_translate_batch_with_demand_paging(&vas, &mut pm, &disk, &mut ffl),
        Some(vec![2052, 2561])
    );
    let (mut pm2, disk2, mut ffl2) = paged_setup();
    pm2.set_segment_entry(7, 512, -3000);
    let bad = [raw(5, 2, 4), raw(7, 0, 0)];
    assert_eq!(try_translate_batch_with_demand_paging(&bad, &mut pm2, &disk2, &mut ffl2), None);
}

#[test]
fn demand_batch_splits_at_any_point() {
    let vas = [raw(5, 2, 4), raw(6, 0, 1), raw(5, 1, 0), raw(5, 2, 9), raw(0, 0, 0)];
    let (mut pm_all, disk, mut ffl_all) = paged_setup();
    let all = translate_batch_with_demand_paging(&vas, &mut pm_all, &disk, &mut ffl_all);
    for cut in 0..=vas.len() {
        let (mut pm, disk2, mut ffl) = paged_setup();
        let mut joined = translate_batch_with_demand_paging(&vas[..cut], &mut pm, &disk2, &mut ffl);
        joined.extend(translate_batch_with_demand_paging(&vas[cut..], &mut pm, &disk2, &mut ffl));
        assert_eq!(joined, all);
        for a in [0usize, 1024, 1025, 1536, 1537, 2048, 2052, 2560, 2561] {
            assert_eq!(pm.read(a), pm_all.read(a));
        }
        assert_eq!(ffl.allocate(), Some(6));
    }
}

#[test]
fn repeat_holds_when_entry_lies_in_the_table_frame() {
    // segment 600's entry (words 1200, 1201) lies in frame 2, where its page table is brought
    let mut pm = PhysicalMemory::new();
    let mut disk = Disk::new();
    let mut ffl = FreeFrameList::new();
    pm.set_segment_entry(600, 4096, -7);
    disk.write(7, 3, -9);
    disk.write(9, 1, 77);
    let va = VirtualAddress::from_raw(raw(600, 3, 1));
    let first = translate_with_demand_paging(&va, &mut pm, &disk, &mut ffl);
    assert_eq!(first, TranslationResult::Success(3 * 512 + 1));
    assert_eq!(pm.get_segment_pt_location(600), 2);
    let second = translate_with_demand_paging(&va, &mut pm, &disk, &mut ffl);
    assert_eq!(second, first);
    assert_eq!(ffl.allocate(), Some(4));
}

#[test]
fn repeat_fails_when_page_lands_on_the_entry() {
    // segment 800's entry (words 1600, 1601) lies in frame 3, where the page is brought
    let mut pm = PhysicalMemory::new();
    let mut disk = Disk::new();
    let mut ffl = FreeFrameList::new();
    pm.set_segment_entry(800, 4096, -7);
    disk.write(7, 3, -9);
    let va = VirtualAddress::from_raw(raw(800, 3, 1));
    let first = translate_with_demand_paging(&va, &mut pm, &disk, &mut ffl);
    assert_eq!(first, TranslationResult::Success(3 * 512 + 1));
    // the page (all zeros) overwrote the segment's entry
    assert_eq!(pm.get_segment_size(800), 0);
    assert_eq!(pm.get_segment_pt_location(800), 0);
    let second = translate_with_demand_paging(&va, &mut pm, &disk, &mut ffl);
    assert_eq!(second, TranslationResult::InvalidSegment);
}
