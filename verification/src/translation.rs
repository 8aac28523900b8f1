use vstd::prelude::*;

use crate::constants::{
    BLOCK_SIZE, DISK_BLOCKS, INVALID_ADDRESS, PAGE_SIZE, PM_SIZE, PW_MASK, P_MASK, P_SHIFT, S_SHIFT,
    W_MASK,
};
use crate::memory::{
    disk_index, frame_base, overwrite_words, page_entry_addr, segment_pt_addr, segment_size_addr,
    Disk, FreeFrameList, PhysicalMemory,
};

verus! {

/// A virtual address split into segment `s`, page `p` within the segment,
/// word `w` within the page, and `pw`, the offset of the word within the
/// segment (page and word together).
#[derive(Debug, Clone, Copy, PartialEq, Eq, Structural)]
pub struct VirtualAddress {
    pub s: u32,
    pub p: u32,
    pub w: u32,
    pub pw: u32,
}

/// The fields of a raw 32-bit virtual address: bits 18 and up select the
/// segment, bits 9..18 the page, bits 0..9 the word.
pub open spec fn decompose(va: u32) -> VirtualAddress {
    VirtualAddress {
        s: va / 262144,
        p: (va / 512) % 512,
        w: va % 512,
        pw: va % 262144,
    }
}

impl VirtualAddress {
    /// Splits a raw address into its fields.
    pub fn from_raw(va: u32) -> (r: Self)
        ensures
            r == decompose(va),
    {
        let s = va >> S_SHIFT;
        let p = (va >> P_SHIFT) & P_MASK;
        let w = va & W_MASK;
        let pw = va & PW_MASK;
        assert(va >> 18u32 == va / 262144) by (bit_vector);
        assert((va >> 9u32) & 511u32 == (va / 512) % 512) by (bit_vector);
        assert(va & 511u32 == va % 512) by (bit_vector);
        assert(va & 262143u32 == va % 262144) by (bit_vector);
        VirtualAddress { s, p, w, pw }
    }
}

/// Outcome of translating one virtual address.
#[derive(Debug, Clone, Copy, PartialEq, Eq, Structural)]
pub enum TranslationResult {
    /// The physical address of the word.
    Success(i32),
    /// The offset within the segment is not below the segment's size.
    SegmentBoundaryViolation,
    /// The segment has no page table (or none could be brought in).
    InvalidSegment,
    /// The page is not present (or could not be brought in).
    InvalidPage,
}

/// The number written out for a translation outcome.
pub open spec fn output_of(r: TranslationResult) -> i32 {
    match r {
        TranslationResult::Success(pa) => pa,
        _ => INVALID_ADDRESS,
    }
}

impl TranslationResult {
    /// The physical address on success, `INVALID_ADDRESS` otherwise.
    pub fn to_output(&self) -> (out: i32)
        ensures
            out == output_of(*self),
    {
        match self {
            TranslationResult::Success(pa) => *pa,
            _ => INVALID_ADDRESS,
        }
    }
}

/// A stored 32-bit word read as an unsigned number (two's complement).
pub open spec fn as_unsigned(x: i32) -> int {
    if x >= 0 {
        x as int
    } else {
        x + 0x1_0000_0000
    }
}

/// A 32-bit unsigned field read as a signed number (two's complement).
pub open spec fn as_signed(x: u32) -> int {
    if x < 0x8000_0000 {
        x as int
    } else {
        x - 0x1_0000_0000
    }
}

/// The physical address of word `w` of frame `frame`, if the frame's base and
/// the address are both 32-bit values (`w` is read as a signed word).
pub open spec fn physical_address(frame: i32, w: u32) -> Option<i32> {
    let base = frame * PAGE_SIZE;
    let pa = base + as_signed(w);
    if i32::MIN <= base <= i32::MAX && i32::MIN <= pa <= i32::MAX {
        Some(pa as i32)
    } else {
        None
    }
}

/// Translation of `va` against memory `mem` without demand paging; `None`
/// where the lookup would leave memory or the address would not fit in 32 bits.
pub open spec fn translation(va: VirtualAddress, mem: Seq<i32>) -> Option<TranslationResult> {
    if segment_pt_addr(va.s as int) >= PM_SIZE {
        None
    } else {
        let size = mem[segment_size_addr(va.s as int)];
        let pt = mem[segment_pt_addr(va.s as int)];
        if size == 0 && pt == 0 {
            Some(TranslationResult::InvalidSegment)
        } else if va.pw >= as_unsigned(size) {
            Some(TranslationResult::SegmentBoundaryViolation)
        } else if pt <= 0 {
            Some(TranslationResult::InvalidSegment)
        } else if page_entry_addr(pt as int, va.p as int) >= PM_SIZE {
            None
        } else {
            let frame = mem[page_entry_addr(pt as int, va.p as int)];
            if frame <= 0 {
                Some(TranslationResult::InvalidPage)
            } else {
                match physical_address(frame, va.w) {
                    Some(pa) => Some(TranslationResult::Success(pa)),
                    None => None,
                }
            }
        }
    }
}

proof fn lemma_as_unsigned(x: i32)
    ensures
        (x as u32) as int == as_unsigned(x),
{
    assert(x < 0 ==> (x as u32) as int == x + 0x1_0000_0000) by (bit_vector);
    assert(x >= 0 ==> (x as u32) as int == x) by (bit_vector);
}

proof fn lemma_as_signed(x: u32)
    ensures
        (x as i32) as int == as_signed(x),
{
    assert(x >= 0x8000_0000 ==> (x as i32) as int == x - 0x1_0000_0000) by (bit_vector);
    assert(x < 0x8000_0000 ==> (x as i32) as int == x) by (bit_vector);
}

/// Word `w` of frame `frame`, as a physical address, or `None` where the
/// frame's base or the address overflows 32 bits.
fn frame_word_address(frame: i32, w: u32) -> (pa: Option<i32>)
    ensures
        pa == physical_address(frame, w),
{
    proof {
        lemma_as_signed(w);
    }
    let page_words = PAGE_SIZE as i64;
    assert(page_words == 512);
    let base = frame as i64 * page_words;
    if base < i32::MIN as i64 || base > i32::MAX as i64 {
        return None;
    }
    let pa = base + w as i32 as i64;
    if pa < i32::MIN as i64 || pa > i32::MAX as i64 {
        return None;
    }
    Some(pa as i32)
}

/// Translates `va` through the segment table and page tables in `pm`, or
/// returns `None` where the translation is undefined (a table index beyond
/// memory, or an address beyond 32 bits).
pub fn try_translate(va: &VirtualAddress, pm: &PhysicalMemory) -> (r: Option<TranslationResult>)
    requires
        pm.wf(),
    ensures
        r == translation(*va, pm@),
{
    if va.s >= (PM_SIZE / 2) as u32 {
        return None;
    }
    let segment_size = pm.get_segment_size(va.s);
    let pt_location = pm.get_segment_pt_location(va.s);

    if segment_size == 0 && pt_location == 0 {
        return Some(TranslationResult::InvalidSegment);
    }
    proof {
        lemma_as_unsigned(segment_size);
    }
    if va.pw >= segment_size as u32 {
        return Some(TranslationResult::SegmentBoundaryViolation);
    }
    if pt_location <= 0 {
        return Some(TranslationResult::InvalidSegment);
    }
    if pt_location as u64 * PAGE_SIZE as u64 + va.p as u64 >= PM_SIZE as u64 {
        return None;
    }

    let page_frame = pm.get_page_frame(pt_location, va.p);

    if page_frame <= 0 {
        return Some(TranslationResult::InvalidPage);
    }
    match frame_word_address(page_frame, va.w) {
        Some(pa) => Some(TranslationResult::Success(pa)),
        None => None,
    }
}

/// Translates `va` through the segment table and page tables in `pm`.
pub fn translate(va: &VirtualAddress, pm: &PhysicalMemory) -> (r: TranslationResult)
    requires
        pm.wf(),
        translation(*va, pm@) is Some,
    ensures
        Some(r) == translation(*va, pm@),
{
    match try_translate(va, pm) {
        Some(r) => r,
        None => {
            proof {
                assert(false);
            }
            TranslationResult::InvalidSegment
        },
    }
}

/// Translates each raw address in `vas` and returns the output numbers, or
/// `None` if the translation of some address is undefined.
pub fn try_translate_batch(vas: &[u32], pm: &PhysicalMemory) -> (out: Option<Vec<i32>>)
    requires
        pm.wf(),
    ensures
        match out {
            Some(o) => {
                &&& forall|i: int|
                    0 <= i < vas@.len() ==> (#[trigger] translation(decompose(vas@[i]), pm@)) is Some
                &&& o@.len() == vas@.len()
                &&& forall|i: int|
                    0 <= i < vas@.len() ==> #[trigger] o@[i] == output_of(
                        translation(decompose(vas@[i]), pm@)->0,
                    )
            },
            None => exists|i: int|
                0 <= i < vas@.len() && (#[trigger] translation(decompose(vas@[i]), pm@)) is None,
        },
{
    let mut out: Vec<i32> = Vec::new();
    let mut i: usize = 0;
    while i < vas.len()
        invariant
            i <= vas@.len(),
            pm.wf(),
            out@.len() == i,
            forall|k: int| 0 <= k < i ==> (#[trigger] translation(decompose(vas@[k]), pm@)) is Some,
            forall|k: int|
                0 <= k < i ==> #[trigger] out@[k] == output_of(
                    translation(decompose(vas@[k]), pm@)->0,
                ),
        decreases vas@.len() - i,
    {
        let va = VirtualAddress::from_raw(vas[i]);
        match try_translate(&va, pm) {
            Some(r) => out.push(r.to_output()),
            None => {
                assert(translation(decompose(vas@[i as int]), pm@) is None);
                return None;
            },
        }
        i = i + 1;
    }
    Some(out)
}

/// Translates each raw address in `vas` and returns the output numbers.
pub fn translate_batch(vas: &[u32], pm: &PhysicalMemory) -> (out: Vec<i32>)
    requires
        pm.wf(),
        forall|i: int| 0 <= i < vas@.len() ==> (#[trigger] translation(decompose(vas@[i]), pm@)) is Some,
    ensures
        out@.len() == vas@.len(),
        forall|i: int|
            0 <= i < vas@.len() ==> #[trigger] out@[i] == output_of(
                translation(decompose(vas@[i]), pm@)->0,
            ),
{
    match try_translate_batch(vas, pm) {
        Some(out) => out,
        None => {
            proof {
                assert(false);
            }
            Vec::new()
        },
    }
}

/// Block `block` of the disk words `disk`.
pub open spec fn disk_block(disk: Seq<i32>, block: int) -> Seq<i32> {
    disk.subrange(disk_index(block, 0), disk_index(block, BLOCK_SIZE as int))
}

/// Last step of a demand-paged translation: the page is in frame `frame`.
pub open spec fn finish_translation(
    va: VirtualAddress,
    mem: Seq<i32>,
    free: Seq<u32>,
    frame: i32,
) -> Option<(TranslationResult, Seq<i32>, Seq<u32>)> {
    if frame == 0 {
        Some((TranslationResult::InvalidPage, mem, free))
    } else {
        match physical_address(frame, va.w) {
            Some(pa) => Some((TranslationResult::Success(pa), mem, free)),
            None => None,
        }
    }
}

/// Page step of a demand-paged translation with the page table in frame `pt`:
/// an entry that names a disk block (a negative entry) brings that page into
/// the smallest free frame and records the frame in the entry.
pub open spec fn page_step(
    va: VirtualAddress,
    mem: Seq<i32>,
    disk: Seq<i32>,
    free: Seq<u32>,
    pt: i32,
) -> Option<(TranslationResult, Seq<i32>, Seq<u32>)> {
    if page_entry_addr(pt as int, va.p as int) >= PM_SIZE {
        None
    } else {
        let entry = mem[page_entry_addr(pt as int, va.p as int)];
        if entry < 0 {
            if entry == i32::MIN {
                None
            } else if free.len() == 0 {
                Some((TranslationResult::InvalidPage, mem, free))
            } else if -entry >= DISK_BLOCKS {
                None
            } else {
                let f = free.last();
                let loaded = overwrite_words(mem, frame_base(f as int), disk_block(disk, -entry));
                let mem1 = loaded.update(page_entry_addr(pt as int, va.p as int), f as i32);
                finish_translation(va, mem1, free.drop_last(), f as i32)
            }
        } else {
            finish_translation(va, mem, free, entry)
        }
    }
}

/// Translation of `va` with demand paging: the result and the memory and
/// free-frame stack afterwards. A segment whose page-table location is
/// negative has its page table brought in from disk block `-location` into
/// the smallest free frame; a page entry that is negative likewise brings in
/// its page. `None` where the computation fails: an index
/// outside memory or the disk, a negation of `i32::MIN`, or an address that
/// does not fit in 32 bits.
pub open spec fn demand_translation(
    va: VirtualAddress,
    mem: Seq<i32>,
    disk: Seq<i32>,
    free: Seq<u32>,
) -> Option<(TranslationResult, Seq<i32>, Seq<u32>)> {
    if segment_pt_addr(va.s as int) >= PM_SIZE {
        None
    } else {
        let size = mem[segment_size_addr(va.s as int)];
        let pt = mem[segment_pt_addr(va.s as int)];
        if size == 0 && pt == 0 {
            Some((TranslationResult::InvalidSegment, mem, free))
        } else if va.pw >= as_unsigned(size) {
            Some((TranslationResult::SegmentBoundaryViolation, mem, free))
        } else if pt < 0 {
            if pt == i32::MIN {
                None
            } else if free.len() == 0 {
                Some((TranslationResult::InvalidSegment, mem, free))
            } else if -pt >= DISK_BLOCKS {
                None
            } else {
                let f = free.last();
                let loaded = overwrite_words(mem, frame_base(f as int), disk_block(disk, -pt));
                let mem1 = loaded.update(segment_size_addr(va.s as int), size).update(
                    segment_pt_addr(va.s as int),
                    f as i32,
                );
                page_step(va, mem1, disk, free.drop_last(), f as i32)
            }
        } else {
            page_step(va, mem, disk, free, pt)
        }
    }
}

/// Translates `va`, bringing in from `disk` a page table or page that is
/// not resident, into the smallest frame of `ffl`; `None` where the
/// translation is undefined (memory and the free list may then have changed).
pub fn try_translate_with_demand_paging(
    va: &VirtualAddress,
    pm: &mut PhysicalMemory,
    disk: &Disk,
    ffl: &mut FreeFrameList,
) -> (r: Option<TranslationResult>)
    requires
        old(pm).wf(),
        disk.wf(),
        old(ffl).wf(),
    ensures
        final(pm).wf(),
        final(ffl).wf(),
        demand_translation(*va, old(pm)@, disk@, old(ffl)@) == match r {
            Some(t) => Some((t, final(pm)@, final(ffl)@)),
            None => None,
        },
{
    if va.s >= (PM_SIZE / 2) as u32 {
        return None;
    }
    let segment_size = pm.get_segment_size(va.s);
    let mut pt_location = pm.get_segment_pt_location(va.s);

    if segment_size == 0 && pt_location == 0 {
        return Some(TranslationResult::InvalidSegment);
    }
    proof {
        lemma_as_unsigned(segment_size);
    }
    if va.pw >= segment_size as u32 {
        return Some(TranslationResult::SegmentBoundaryViolation);
    }

    if pt_location < 0 {
        if pt_location == i32::MIN {
            return None;
        }
        let disk_block = (-pt_location) as usize;
        let new_frame = match ffl.allocate() {
            Some(f) => f,
            None => return Some(TranslationResult::InvalidSegment),
        };
        if disk_block >= DISK_BLOCKS {
            return None;
        }
        disk.load_pt_from_disk(disk_block, new_frame, pm);
        pm.set_segment_entry(va.s, segment_size, new_frame as i32);
        pt_location = new_frame as i32;
    }
    let ghost mid_mem = pm@;
    let ghost mid_free = ffl@;
    assert(demand_translation(*va, old(pm)@, disk@, old(ffl)@) == page_step(
        *va,
        mid_mem,
        disk@,
        mid_free,
        pt_location,
    ));
    if pt_location as u64 * PAGE_SIZE as u64 + va.p as u64 >= PM_SIZE as u64 {
        return None;
    }

    let mut page_frame = pm.get_page_frame(pt_location, va.p);

    if page_frame < 0 {
        if page_frame == i32::MIN {
            return None;
        }
        let disk_block = (-page_frame) as usize;
        let new_frame = match ffl.allocate() {
            Some(f) => f,
            None => return Some(TranslationResult::InvalidPage),
        };
        if disk_block >= DISK_BLOCKS {
            return None;
        }
        disk.load_page_from_disk(disk_block, new_frame, pm);
        pm.set_page_entry(pt_location, va.p, new_frame as i32);
        page_frame = new_frame as i32;
    }
    assert(demand_translation(*va, old(pm)@, disk@, old(ffl)@) == finish_translation(
        *va,
        pm@,
        ffl@,
        page_frame,
    ));

    if page_frame == 0 {
        return Some(TranslationResult::InvalidPage);
    }
    match frame_word_address(page_frame, va.w) {
        Some(pa) => Some(TranslationResult::Success(pa)),
        None => None,
    }
}

/// Translates `va`, bringing in from `disk` a page table or page that is
/// not resident, into the smallest frame of `ffl`.
pub fn translate_with_demand_paging(
    va: &VirtualAddress,
    pm: &mut PhysicalMemory,
    disk: &Disk,
    ffl: &mut FreeFrameList,
) -> (r: TranslationResult)
    requires
        old(pm).wf(),
        disk.wf(),
        old(ffl).wf(),
        demand_translation(*va, old(pm)@, disk@, old(ffl)@) is Some,
    ensures
        final(pm).wf(),
        final(ffl).wf(),
        demand_translation(*va, old(pm)@, disk@, old(ffl)@) == Some((r, final(pm)@, final(ffl)@)),
{
    match try_translate_with_demand_paging(va, pm, disk, ffl) {
        Some(r) => r,
        None => {
            proof {
                assert(false);
            }
            TranslationResult::InvalidSegment
        },
    }
}

/// Demand-paged translation of the raw addresses `vas`, one after another,
/// each against the memory and free frames the previous ones left: the output
/// numbers, the final memory and the final free-frame stack.
pub open spec fn demand_batch(
    vas: Seq<u32>,
    mem: Seq<i32>,
    disk: Seq<i32>,
    free: Seq<u32>,
) -> Option<(Seq<i32>, Seq<i32>, Seq<u32>)>
    decreases vas.len(),
{
    if vas.len() == 0 {
        Some((Seq::empty(), mem, free))
    } else {
        match demand_batch(vas.drop_last(), mem, disk, free) {
            None => None,
            Some((outs, m, f)) => match demand_translation(decompose(vas.last()), m, disk, f) {
                None => None,
                Some((r, m2, f2)) => Some((outs.push(output_of(r)), m2, f2)),
            },
        }
    }
}

/// A batch that runs to completion also runs to completion on each prefix.
proof fn lemma_demand_batch_prefix(
    vas: Seq<u32>,
    mem: Seq<i32>,
    disk: Seq<i32>,
    free: Seq<u32>,
    n: int,
)
    requires
        0 <= n <= vas.len(),
        demand_batch(vas, mem, disk, free) is Some,
    ensures
        demand_batch(vas.take(n), mem, disk, free) is Some,
    decreases vas.len(),
{
    if n < vas.len() {
        assert(vas.drop_last().take(n) =~= vas.take(n));
        lemma_demand_batch_prefix(vas.drop_last(), mem, disk, free, n);
    } else {
        assert(vas.take(n) =~= vas);
    }
}

/// Translates each raw address in `vas` with demand paging, in order, and
/// returns the output numbers, or `None` as soon as the translation of an
/// address is undefined (memory and the free list may then have changed).
pub fn try_translate_batch_with_demand_paging(
    vas: &[u32],
    pm: &mut PhysicalMemory,
    disk: &Disk,
    ffl: &mut FreeFrameList,
) -> (out: Option<Vec<i32>>)
    requires
        old(pm).wf(),
        disk.wf(),
        old(ffl).wf(),
    ensures
        final(pm).wf(),
        final(ffl).wf(),
        demand_batch(vas@, old(pm)@, disk@, old(ffl)@) == match out {
            Some(o) => Some((o@, final(pm)@, final(ffl)@)),
            None => None,
        },
{
    let mut out: Vec<i32> = Vec::new();
    let mut i: usize = 0;
    assert(vas@.take(0) =~= Seq::<u32>::empty());
    while i < vas.len()
        invariant
            i <= vas@.len(),
            pm.wf(),
            disk.wf(),
            ffl.wf(),
            demand_batch(vas@.take(i as int), old(pm)@, disk@, old(ffl)@) == Some(
                (out@, pm@, ffl@),
            ),
        decreases vas@.len() - i,
    {
        let ghost prefix = vas@.take(i as int + 1);
        assert(prefix.drop_last() =~= vas@.take(i as int));
        assert(prefix.last() == vas@[i as int]);
        let va = VirtualAddress::from_raw(vas[i]);
        match try_translate_with_demand_paging(&va, pm, disk, ffl) {
            Some(r) => out.push(r.to_output()),
            None => {
                proof {
                    if demand_batch(vas@, old(pm)@, disk@, old(ffl)@) is Some {
                        lemma_demand_batch_prefix(vas@, old(pm)@, disk@, old(ffl)@, i as int + 1);
                    }
                }
                return None;
            },
        }
        i = i + 1;
    }
    assert(vas@.take(vas@.len() as int) =~= vas@);
    Some(out)
}

/// Translates each raw address in `vas` with demand paging, in order, and
/// returns the output numbers.
pub fn translate_batch_with_demand_paging(
    vas: &[u32],
    pm: &mut PhysicalMemory,
    disk: &Disk,
    ffl: &mut FreeFrameList,
) -> (out: Vec<i32>)
    requires
        old(pm).wf(),
        disk.wf(),
        old(ffl).wf(),
        demand_batch(vas@, old(pm)@, disk@, old(ffl)@) is Some,
    ensures
        final(pm).wf(),
        final(ffl).wf(),
        demand_batch(vas@, old(pm)@, disk@, old(ffl)@) == Some((out@, final(pm)@, final(ffl)@)),
{
    match try_translate_batch_with_demand_paging(vas, pm, disk, ffl) {
        Some(out) => out,
        None => {
            proof {
                assert(false);
            }
            Vec::new()
        },
    }
}

} // verus!
