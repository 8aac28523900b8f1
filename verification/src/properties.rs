use vstd::prelude::*;

use crate::constants::{
    BLOCK_SIZE, DISK_BLOCKS, INVALID_ADDRESS, MAX_SEGMENTS, NUM_FRAMES, PAGE_SIZE, PM_SIZE,
    ST_FRAMES,
};
use crate::io::{free_frames_after_image, named_frame};
use crate::memory::{
    frame_base, initial_free_frames, lemma_filter_free_stack, page_entry_addr, segment_pt_addr,
    segment_size_addr, valid_free_stack,
};
use crate::translation::{
    as_unsigned, decompose, demand_batch, demand_translation, output_of, physical_address,
    translation, TranslationResult, VirtualAddress,
};

verus! {

/// The fields of a decomposed address put the address back together, each
/// within its range, and `pw` is the page and word fields together.
pub proof fn lemma_decompose_reassembles(va: u32)
    ensures
        ({
            let d = decompose(va);
            &&& d.s < 16384 && d.p < 512 && d.w < 512 && d.pw < 262144
            &&& d.pw == d.p * 512 + d.w
            &&& va == d.s * 262144 + d.p * 512 + d.w
        }),
{
    let d = decompose(va);
    assert(va == d.s * 262144 + d.pw) by (nonlinear_arith)
        requires
            d.s == va / 262144,
            d.pw == va % 262144,
    ;
    assert(d.pw == d.p * 512 + d.w) by (nonlinear_arith)
        requires
            d.p == (va / 512) % 512,
            d.w == va % 512,
            d.pw == va % 262144,
    ;
    assert(d.s < 16384) by (nonlinear_arith)
        requires
            d.s == va / 262144,
    ;
}

/// The translation reaches a result without needing anything from disk: the
/// segment entry already decides the outcome, or the segment's page table is
/// resident and the page entry does not name a disk block.
pub open spec fn resident(va: VirtualAddress, mem: Seq<i32>) -> bool {
    &&& segment_pt_addr(va.s as int) < PM_SIZE
    &&& {
        let size = mem[segment_size_addr(va.s as int)];
        let pt = mem[segment_pt_addr(va.s as int)];
        ||| size == 0 && pt == 0
        ||| va.pw >= as_unsigned(size)
        ||| {
            &&& pt > 0
            &&& page_entry_addr(pt as int, va.p as int) < PM_SIZE
            &&& mem[page_entry_addr(pt as int, va.p as int)] >= 0
        }
    }
}

/// When nothing has to come from disk, demand paging gives what plain
/// translation gives and leaves memory and the free frames as they were.
pub proof fn lemma_demand_agrees_when_resident(
    va: VirtualAddress,
    mem: Seq<i32>,
    disk: Seq<i32>,
    free: Seq<u32>,
)
    requires
        resident(va, mem),
    ensures
        demand_translation(va, mem, disk, free) == match translation(va, mem) {
            Some(r) => Some((r, mem, free)),
            None => None,
        },
{
}

/// The frame a demand-paged translation of `va` brings a page into, if it
/// brings one in: the lowest of the frames it takes off the free stack (the
/// page is taken after the page table, when both are brought in).
pub open spec fn page_frame_taken(
    va: VirtualAddress,
    mem: Seq<i32>,
    disk: Seq<i32>,
    free: Seq<u32>,
) -> Option<u32> {
    let (_, _, free1) = demand_translation(va, mem, disk, free)->0;
    let taken = free.len() - free1.len();
    let for_table: int = if mem[segment_pt_addr(va.s as int)] < 0 && taken >= 1 {
        1
    } else {
        0
    };
    if taken > for_table {
        Some(free[free1.len() as int])
    } else {
        None
    }
}

/// The demand-paged translation of `va` brings a page into the frame that
/// holds the words of the segment's own table entry, overwriting that entry.
/// Never so for a segment of the segment table proper
/// (`va.s < MAX_SEGMENTS`), which lies below every frame that can be free.
pub open spec fn segment_entry_in_page_frame(
    va: VirtualAddress,
    mem: Seq<i32>,
    disk: Seq<i32>,
    free: Seq<u32>,
) -> bool {
    &&& page_frame_taken(va, mem, disk, free) is Some
    &&& frame_base(page_frame_taken(va, mem, disk, free)->0 as int) <= segment_size_addr(
        va.s as int,
    ) < frame_base(page_frame_taken(va, mem, disk, free)->0 as int) + PAGE_SIZE
}

/// The page entry that the translation of `va` consults is the segment's own
/// size word, and that word is negative (so it names a disk block and gets
/// overwritten by the frame the page is brought into).
pub open spec fn page_entry_is_negative_size_word(
    va: VirtualAddress,
    mem: Seq<i32>,
    free: Seq<u32>,
) -> bool {
    &&& mem[segment_pt_addr(va.s as int)] >= 0 || free.len() > 0
    &&& page_entry_addr(consulted_table(va, mem, free), va.p as int) == segment_size_addr(
        va.s as int,
    )
    &&& mem[segment_size_addr(va.s as int)] < 0
}

/// Repeating a demand-paged translation gives the same result and changes
/// nothing more: whatever the first one brought in from disk stays where it
/// put it. Excluded: a segment whose entry lies in the frame the page is
/// brought into (the page overwrites the entry), and a page table that overlaps the
/// segment table so that the page entry is the segment's own size word,
/// when that word names a disk block.
pub proof fn lemma_demand_translation_repeats(
    va: VirtualAddress,
    mem: Seq<i32>,
    disk: Seq<i32>,
    free: Seq<u32>,
)
    requires
        mem.len() == PM_SIZE,
        disk.len() == DISK_BLOCKS * BLOCK_SIZE,
        valid_free_stack(free),
        !segment_entry_in_page_frame(va, mem, disk, free),
        demand_translation(va, mem, disk, free) is Some,
        !page_entry_is_negative_size_word(va, mem, free),
    ensures
        ({
            let (r, mem1, free1) = demand_translation(va, mem, disk, free)->0;
            demand_translation(va, mem1, disk, free1) == Some((r, mem1, free1))
        }),
{
}

/// After a successful demand-paged translation, plain translation of the same
/// address finds the same physical address, provided the segment's page table
/// is not placed at frame 0 (which plain translation treats as no page table),
/// with the exclusions of `lemma_demand_translation_repeats`.
pub proof fn lemma_translation_after_demand(
    va: VirtualAddress,
    mem: Seq<i32>,
    disk: Seq<i32>,
    free: Seq<u32>,
    pa: i32,
)
    requires
        mem.len() == PM_SIZE,
        disk.len() == DISK_BLOCKS * BLOCK_SIZE,
        valid_free_stack(free),
        !segment_entry_in_page_frame(va, mem, disk, free),
        demand_translation(va, mem, disk, free) matches Some((TranslationResult::Success(p), _, _))
            && p == pa,
        mem[segment_pt_addr(va.s as int)] != 0,
        !page_entry_is_negative_size_word(va, mem, free),
    ensures
        ({
            let (_, mem1, _) = demand_translation(va, mem, disk, free)->0;
            translation(va, mem1) == Some(TranslationResult::Success(pa))
        }),
{
}

/// No segment of the segment table proper has its entry in the frame that a
/// demand-paged translation brings a page into.
pub proof fn lemma_table_segment_entry_not_in_page_frame(
    va: VirtualAddress,
    mem: Seq<i32>,
    disk: Seq<i32>,
    free: Seq<u32>,
)
    requires
        va.s < MAX_SEGMENTS,
        valid_free_stack(free),
        demand_translation(va, mem, disk, free) is Some,
    ensures
        !segment_entry_in_page_frame(va, mem, disk, free),
{
    let (_, _, free1) = demand_translation(va, mem, disk, free)->0;
    if page_frame_taken(va, mem, disk, free) is Some {
        assert(free[free1.len() as int] >= ST_FRAMES);
    }
}

/// The frame that holds the page table a demand-paged translation of `va`
/// consults: the segment's page-table location, or, when that names a disk
/// block, the top of the free stack, where the table is brought in.
pub open spec fn consulted_table(va: VirtualAddress, mem: Seq<i32>, free: Seq<u32>) -> int {
    let pt = mem[segment_pt_addr(va.s as int)];
    if pt < 0 {
        free.last() as int
    } else {
        pt as int
    }
}

/// A demand-paged translation takes frames only from the top of the free
/// stack, at most two (one for a page table, one for a page), keeps the stack
/// valid, and writes memory only in the segment's entry, the page entry it
/// consults, and the frames it took.
pub proof fn lemma_demand_footprint(
    va: VirtualAddress,
    mem: Seq<i32>,
    disk: Seq<i32>,
    free: Seq<u32>,
)
    requires
        mem.len() == PM_SIZE,
        disk.len() == DISK_BLOCKS * BLOCK_SIZE,
        valid_free_stack(free),
        demand_translation(va, mem, disk, free) is Some,
    ensures
        ({
            let (_, mem1, free1) = demand_translation(va, mem, disk, free)->0;
            &&& valid_free_stack(free1)
            &&& free.len() - 2 <= free1.len() <= free.len()
            &&& free1 == free.take(free1.len() as int)
            &&& mem1.len() == mem.len()
            &&& forall|j: int|
                0 <= j < mem.len() && #[trigger] mem1[j] != mem[j] ==> {
                    ||| j == segment_size_addr(va.s as int)
                    ||| j == segment_pt_addr(va.s as int)
                    ||| j == page_entry_addr(consulted_table(va, mem, free), va.p as int)
                    ||| exists|k: int|
                        free1.len() <= k < free.len() && frame_base(free[k] as int) <= j
                            < frame_base(#[trigger] free[k] as int) + PAGE_SIZE
                }
        }),
{
    let (_, mem1, free1) = demand_translation(va, mem, disk, free)->0;
    assert(free1 =~= free.take(free1.len() as int));
    assert forall|j: int|
        0 <= j < mem.len() && #[trigger] mem1[j] != mem[j] implies {
        ||| j == segment_size_addr(va.s as int)
        ||| j == segment_pt_addr(va.s as int)
        ||| j == page_entry_addr(consulted_table(va, mem, free), va.p as int)
        ||| exists|k: int|
            free1.len() <= k < free.len() && frame_base(free[k] as int) <= j < frame_base(
                #[trigger] free[k] as int,
            ) + PAGE_SIZE
    } by {
        let n = free.len() as int;
        if n >= 1 && frame_base(free[n - 1] as int) <= j < frame_base(free[n - 1] as int)
            + PAGE_SIZE {
        }
        if n >= 2 && frame_base(free[n - 2] as int) <= j < frame_base(free[n - 2] as int)
            + PAGE_SIZE {
        }
    }
}

/// A successful translation of a raw address lands in the frame that the
/// page entry names, at the address's word offset; so it is at least
/// `PAGE_SIZE` and its output differs from `INVALID_ADDRESS`, which every
/// failure outputs.
pub proof fn lemma_translation_lands_in_frame(va: u32, mem: Seq<i32>)
    requires
        translation(decompose(va), mem) is Some,
    ensures
        ({
            let d = decompose(va);
            let r = translation(d, mem)->0;
            &&& r matches TranslationResult::Success(pa) ==> {
                let frame = mem[page_entry_addr(
                    mem[segment_pt_addr(d.s as int)] as int,
                    d.p as int,
                )];
                &&& pa == frame * PAGE_SIZE + va % 512
                &&& (pa as int) / (PAGE_SIZE as int) == frame
                &&& (pa as int) % (PAGE_SIZE as int) == va % 512
                &&& pa >= PAGE_SIZE
            }
            &&& (output_of(r) == INVALID_ADDRESS) == !(r is Success)
        }),
{
    let d = decompose(va);
    let r = translation(d, mem)->0;
    if let TranslationResult::Success(pa) = r {
        let frame = mem[page_entry_addr(mem[segment_pt_addr(d.s as int)] as int, d.p as int)];
        assert(pa / 512 == frame && pa % 512 == va % 512) by (nonlinear_arith)
            requires
                pa == frame * 512 + va % 512,
                0 <= va % 512 < 512,
        ;
    }
}

/// The same for a demand-paged translation: a successful one lands at the
/// address's word offset of some frame other than frame 0, and its output
/// differs from `INVALID_ADDRESS`.
pub proof fn lemma_demand_translation_lands_in_frame(
    va: u32,
    mem: Seq<i32>,
    disk: Seq<i32>,
    free: Seq<u32>,
)
    requires
        valid_free_stack(free),
        demand_translation(decompose(va), mem, disk, free) is Some,
    ensures
        ({
            let d = decompose(va);
            let (r, _, _) = demand_translation(d, mem, disk, free)->0;
            &&& r matches TranslationResult::Success(pa) ==> {
                &&& (pa as int) % (PAGE_SIZE as int) == va % 512
                &&& pa >= PAGE_SIZE
            }
            &&& (output_of(r) == INVALID_ADDRESS) == !(r is Success)
        }),
{
    let d = decompose(va);
    assert forall|f: i32| f > 0 && (#[trigger] physical_address(f, d.w)) is Some implies ({
        let pa = physical_address(f, d.w)->0;
        pa >= PAGE_SIZE && (pa as int) % (PAGE_SIZE as int) == va % 512
    }) by {
        lemma_physical_address_offset(f, d.w);
    }
}

/// Word `w < PAGE_SIZE` of a frame other than frame 0 lies at offset `w`
/// and at or above `PAGE_SIZE`.
proof fn lemma_physical_address_offset(frame: i32, w: u32)
    requires
        frame > 0,
        w < 512,
        physical_address(frame, w) is Some,
    ensures
        physical_address(frame, w)->0 >= PAGE_SIZE,
        (physical_address(frame, w)->0 as int) % (PAGE_SIZE as int) == w,
{
    let pa = physical_address(frame, w)->0;
    assert(pa as int == frame * 512 + w);
    assert((pa as int) % 512 == w) by (nonlinear_arith)
        requires
            pa as int == frame * 512 + w,
            0 <= w < 512,
            frame > 0,
    ;
}

/// Over a whole run of demand-paged translations, frames are only ever taken
/// from the top of the free stack, which stays valid: every frame brought
/// into was free when the run began, and none is taken twice.
pub proof fn lemma_demand_batch_takes_from_top(
    vas: Seq<u32>,
    mem: Seq<i32>,
    disk: Seq<i32>,
    free: Seq<u32>,
)
    requires
        mem.len() == PM_SIZE,
        disk.len() == DISK_BLOCKS * BLOCK_SIZE,
        valid_free_stack(free),
        demand_batch(vas, mem, disk, free) is Some,
    ensures
        ({
            let (outs, mem1, free1) = demand_batch(vas, mem, disk, free)->0;
            &&& outs.len() == vas.len()
            &&& mem1.len() == PM_SIZE
            &&& valid_free_stack(free1)
            &&& free1.len() <= free.len()
            &&& free1 == free.take(free1.len() as int)
        }),
    decreases vas.len(),
{
    if vas.len() > 0 {
        lemma_demand_batch_takes_from_top(vas.drop_last(), mem, disk, free);
        let (_, m, f) = demand_batch(vas.drop_last(), mem, disk, free)->0;
        lemma_demand_footprint(decompose(vas.last()), m, disk, f);
        let (_, _, f2) = demand_translation(decompose(vas.last()), m, disk, f)->0;
        assert(f2 =~= free.take(f2.len() as int));
    } else {
        assert(free =~= free.take(free.len() as int));
    }
}

/// During a demand-paged run on an installed image, every frame that pages
/// or page tables are brought into lies outside the segment table and is
/// named by no entry of the image: demand paging never overwrites a page or
/// page table that the image placed in memory.
pub proof fn lemma_run_spares_image_frames(
    st: Seq<(u32, i32, i32)>,
    pt: Seq<(u32, u32, i32)>,
    vas: Seq<u32>,
    mem: Seq<i32>,
    disk: Seq<i32>,
)
    requires
        mem.len() == PM_SIZE,
        disk.len() == DISK_BLOCKS * BLOCK_SIZE,
        demand_batch(vas, mem, disk, free_frames_after_image(st, pt)) is Some,
    ensures
        ({
            let free = free_frames_after_image(st, pt);
            let (_, _, free1) = demand_batch(vas, mem, disk, free)->0;
            forall|k: int|
                free1.len() <= k < free.len() ==> ST_FRAMES <= #[trigger] free[k] < NUM_FRAMES
                    && !named_frame(st, pt, free[k])
        }),
{
    let free = free_frames_after_image(st, pt);
    let keep = |f: u32| !named_frame(st, pt, f);
    assert(valid_free_stack(initial_free_frames()));
    lemma_filter_free_stack(initial_free_frames(), keep);
    lemma_demand_batch_takes_from_top(vas, mem, disk, free);
    assert forall|k: int| 0 <= k < free.len() implies !named_frame(st, pt, #[trigger] free[k]) by {
        assert(free.contains(free[k]));
    }
}

/// A demand-paged run over `a` followed by `b` is the run over `a`, then the
/// run over `b` from the memory and free frames the first one left: the
/// outputs are joined and the final state is the second run's.
pub proof fn lemma_demand_batch_concat(
    a: Seq<u32>,
    b: Seq<u32>,
    mem: Seq<i32>,
    disk: Seq<i32>,
    free: Seq<u32>,
)
    ensures
        demand_batch(a + b, mem, disk, free) == match demand_batch(a, mem, disk, free) {
            None => None,
            Some((outs1, mem1, free1)) => match demand_batch(b, mem1, disk, free1) {
                None => None,
                Some((outs2, mem2, free2)) => Some((outs1 + outs2, mem2, free2)),
            },
        },
    decreases b.len(),
{
    if b.len() == 0 {
        assert(a + b =~= a);
        if let Some((outs1, mem1, free1)) = demand_batch(a, mem, disk, free) {
            assert(outs1 + Seq::<i32>::empty() =~= outs1);
        }
    } else {
        lemma_demand_batch_concat(a, b.drop_last(), mem, disk, free);
        assert((a + b).drop_last() =~= a + b.drop_last());
        assert((a + b).last() == b.last());
        if let Some((outs1, mem1, free1)) = demand_batch(a, mem, disk, free) {
            if let Some((outs2, mem2, free2)) = demand_batch(b.drop_last(), mem1, disk, free1) {
                if let Some((r, m3, f3)) = demand_translation(decompose(b.last()), mem2, disk, free2) {
                    assert((outs1 + outs2).push(output_of(r)) =~= outs1 + outs2.push(
                        output_of(r),
                    ));
                }
            }
        }
    }
}

} // verus!
