use vstd::prelude::*;

use crate::constants::{BLOCK_SIZE, DISK_BLOCKS, NUM_FRAMES, PAGE_SIZE, PM_SIZE, ST_FRAMES};
use crate::io::{free_frames_after_image, image_after_st_entries};
use crate::memory::{initial_free_frames, lemma_filter_free_stack, valid_free_stack};
use crate::simulation::image_uses_disk;
use crate::translation::{
    demand_translation, output_of, translation, TranslationResult, VirtualAddress,
};

verus! {

/// A segment size word read as an unsigned 32-bit number.
pub open spec fn size_as_unsigned(size: i32) -> int {
    if size >= 0 {
        size as int
    } else {
        size as int + 0x1_0000_0000
    }
}

/// A segment whose page table is in frame `pt > 0`, addressed within its
/// size, with a page entry naming frame `e > 0`: plain and demand-paged
/// translation both give word `w` of frame `e`, and demand paging changes
/// nothing.
pub proof fn lemma_resident_page_translates(
    va: VirtualAddress,
    mem: Seq<i32>,
    disk: Seq<i32>,
    free: Seq<u32>,
)
    requires
        2 * va.s + 1 < PM_SIZE,
        mem[2 * va.s + 1] > 0,
        va.pw < size_as_unsigned(mem[2 * va.s]),
        mem[2 * va.s + 1] * 512 + va.p < PM_SIZE,
        mem[mem[2 * va.s + 1] * 512 + va.p] > 0,
        va.w < 512,
        mem[mem[2 * va.s + 1] * 512 + va.p] * 512 + va.w <= i32::MAX,
    ensures
        ({
            let e = mem[mem[2 * va.s + 1] * 512 + va.p];
            let pa = (e * 512 + va.w) as i32;
            &&& translation(va, mem) == Some(TranslationResult::Success(pa))
            &&& demand_translation(va, mem, disk, free) == Some(
                (TranslationResult::Success(pa), mem, free),
            )
        }),
{
}

/// Outside an empty segment entry, a translation reports a boundary
/// violation exactly when the offset `pw` is not below the segment's size
/// (read as unsigned), and demand paging then changes nothing.
pub proof fn lemma_boundary_violation_iff_beyond_size(
    va: VirtualAddress,
    mem: Seq<i32>,
    disk: Seq<i32>,
    free: Seq<u32>,
)
    requires
        2 * va.s + 1 < PM_SIZE,
        !(mem[2 * va.s] == 0 && mem[2 * va.s + 1] == 0),
    ensures
        (translation(va, mem) == Some(TranslationResult::SegmentBoundaryViolation)) <==> va.pw
            >= size_as_unsigned(mem[2 * va.s]),
        (demand_translation(va, mem, disk, free) matches Some((r, _, _))
            && r == TranslationResult::SegmentBoundaryViolation) <==> va.pw >= size_as_unsigned(
            mem[2 * va.s],
        ),
        va.pw >= size_as_unsigned(mem[2 * va.s]) ==> demand_translation(va, mem, disk, free)
            == Some((TranslationResult::SegmentBoundaryViolation, mem, free)),
{
}

/// A page entry naming disk block `b` (`0 < b < DISK_BLOCKS`) of a segment
/// addressed within its size, whose page table is in memory: demand paging
/// brings block `b` into the smallest free frame `f`, records `f` in the
/// entry, takes `f` off the free stack, changes no other word, and gives word
/// `w` of frame `f`.
pub proof fn lemma_demand_brings_page_in(
    va: VirtualAddress,
    mem: Seq<i32>,
    disk: Seq<i32>,
    free: Seq<u32>,
)
    requires
        mem.len() == PM_SIZE,
        disk.len() == DISK_BLOCKS * BLOCK_SIZE,
        valid_free_stack(free),
        free.len() > 0,
        2 * va.s + 1 < PM_SIZE,
        mem[2 * va.s + 1] >= 0,
        !(mem[2 * va.s] == 0 && mem[2 * va.s + 1] == 0),
        va.pw < size_as_unsigned(mem[2 * va.s]),
        mem[2 * va.s + 1] * 512 + va.p < PM_SIZE,
        0 < -mem[mem[2 * va.s + 1] * 512 + va.p] < DISK_BLOCKS,
        va.w < 512,
    ensures
        demand_translation(va, mem, disk, free) is Some,
        ({
            let entry_addr = mem[2 * va.s + 1] * 512 + va.p;
            let b = -mem[entry_addr];
            let f = free.last() as int;
            let (r, mem1, free1) = demand_translation(va, mem, disk, free)->0;
            &&& r == TranslationResult::Success((f * 512 + va.w) as i32)
            &&& free1 == free.drop_last()
            &&& mem1.len() == mem.len()
            &&& mem1[entry_addr] == f
            &&& forall|i: int|
                0 <= i < 512 && f * 512 + i != entry_addr ==> #[trigger] mem1[f * 512 + i]
                    == disk[b * 512 + i]
            &&& forall|j: int|
                0 <= j < mem.len() && j != entry_addr && !(f * 512 <= j < f * 512 + 512)
                    ==> #[trigger] mem1[j] == mem[j]
        }),
{
    let entry_addr = mem[2 * va.s + 1] * 512 + va.p;
    let f = free.last() as int;
    assert(ST_FRAMES <= free[free.len() - 1] < NUM_FRAMES);
    let (r, mem1, free1) = demand_translation(va, mem, disk, free)->0;
    assert forall|i: int| 0 <= i < 512 && f * 512 + i != entry_addr implies #[trigger] mem1[f
        * 512 + i] == disk[(-mem[entry_addr]) * 512 + i] by {}
}

/// A page table on disk block `b` (`0 < b < DISK_BLOCKS`) of a segment
/// addressed within its size, with a free frame: demand paging gives what it
/// gives with the table already in the smallest free frame `f` (frame `f`
/// holding block `b`, the segment entry recording `f`) and `f` taken off the
/// free stack. With no free frame it reports an invalid segment and changes
/// nothing.
pub proof fn lemma_demand_brings_table_in(
    va: VirtualAddress,
    mem: Seq<i32>,
    disk: Seq<i32>,
    free: Seq<u32>,
)
    requires
        mem.len() == PM_SIZE,
        disk.len() == DISK_BLOCKS * BLOCK_SIZE,
        valid_free_stack(free),
        2 * va.s + 1 < PM_SIZE,
        0 < -mem[2 * va.s + 1] < DISK_BLOCKS,
        va.pw < size_as_unsigned(mem[2 * va.s]),
    ensures
        free.len() == 0 ==> demand_translation(va, mem, disk, free) == Some(
            (TranslationResult::InvalidSegment, mem, free),
        ),
        free.len() > 0 ==> ({
            let b = -mem[2 * va.s + 1];
            let f = free.last() as int;
            let loaded = Seq::new(
                mem.len(),
                |j: int|
                    if j == 2 * va.s {
                        mem[2 * va.s]
                    } else if j == 2 * va.s + 1 {
                        f as i32
                    } else if f * 512 <= j < f * 512 + 512 {
                        disk[b * 512 + j - f * 512]
                    } else {
                        mem[j]
                    },
            );
            demand_translation(va, mem, disk, free) == demand_translation(
                va,
                loaded,
                disk,
                free.drop_last(),
            )
        }),
{
    if free.len() > 0 {
        let b = -mem[2 * va.s + 1];
        let f = free.last() as int;
        assert(ST_FRAMES <= free[free.len() - 1] < NUM_FRAMES);
        let loaded = Seq::new(
            mem.len(),
            |j: int|
                if j == 2 * va.s {
                    mem[2 * va.s]
                } else if j == 2 * va.s + 1 {
                    f as i32
                } else if f * 512 <= j < f * 512 + 512 {
                    disk[b * 512 + j - f * 512]
                } else {
                    mem[j]
                },
        );
        let mem1 = crate::memory::overwrite_words(
            mem,
            f * 512,
            crate::translation::disk_block(disk, b),
        ).update(2 * va.s, mem[2 * va.s]).update(2 * va.s + 1, f as i32);
        assert(mem1 =~= loaded);
    }
}

/// A run pages on demand when some segment-table entry names a disk block
/// (a negative location), whatever the page-table line holds; when some
/// page-table entry does, whatever the segment-table line holds; and not
/// when no entry of either line does.
pub proof fn lemma_demand_paging_iff_disk_location(
    st: Seq<(u32, i32, i32)>,
    pt: Seq<(u32, u32, i32)>,
)
    ensures
        (exists|k: int| 0 <= k < st.len() && st[k].2 < 0) ==> image_uses_disk(st, pt),
        (exists|k: int| 0 <= k < pt.len() && pt[k].2 < 0) ==> image_uses_disk(st, pt),
        (forall|k: int| 0 <= k < st.len() ==> st[k].2 >= 0) && (forall|k: int|
            0 <= k < pt.len() ==> pt[k].2 >= 0) ==> !image_uses_disk(st, pt),
{
    if exists|k: int| 0 <= k < st.len() && st[k].2 < 0 {
        let k = choose|k: int| 0 <= k < st.len() && st[k].2 < 0;
        assert(st[k].2 < 0);
    }
    if exists|k: int| 0 <= k < pt.len() && pt[k].2 < 0 {
        let k = choose|k: int| 0 <= k < pt.len() && pt[k].2 < 0;
        assert(pt[k].2 < 0);
    }
}

/// After installing an image, frame `f` is free exactly when it lies outside
/// the segment table and within memory and no entry of the image, of either
/// line and wherever its page table is, names `f` as a location.
pub proof fn lemma_free_after_image_iff_unnamed(
    st: Seq<(u32, i32, i32)>,
    pt: Seq<(u32, u32, i32)>,
    f: u32,
)
    ensures
        free_frames_after_image(st, pt).contains(f) <==> {
            &&& ST_FRAMES <= f < NUM_FRAMES
            &&& forall|k: int| 0 <= k < st.len() ==> !(st[k].2 > 0 && st[k].2 as u32 == f)
            &&& forall|k: int| 0 <= k < pt.len() ==> !(pt[k].2 > 0 && pt[k].2 as u32 == f)
        },
{
    let keep = |x: u32| !crate::io::named_frame(st, pt, x);
    assert(valid_free_stack(initial_free_frames()));
    lemma_filter_free_stack(initial_free_frames(), keep);
    let init = initial_free_frames();
    if ST_FRAMES <= f < NUM_FRAMES {
        let i = NUM_FRAMES - 1 - f;
        assert(init[i] == f);
    }
    if init.contains(f) {
        let i = choose|i: int| 0 <= i < init.len() && init[i] == f;
    }
    if (exists|k: int| 0 <= k < st.len() && st[k].2 > 0 && st[k].2 as u32 == f) {
        let k = choose|k: int| 0 <= k < st.len() && st[k].2 > 0 && st[k].2 as u32 == f;
        assert(st[k].2 > 0);
    }
    if (exists|k: int| 0 <= k < pt.len() && pt[k].2 > 0 && pt[k].2 as u32 == f) {
        let k = choose|k: int| 0 <= k < pt.len() && pt[k].2 > 0 && pt[k].2 as u32 == f;
        assert(pt[k].2 > 0);
    }
}

/// The failures of a translation: an empty segment entry is an invalid
/// segment; without demand paging so is a page-table location that is not a
/// frame above 0; a page entry that names no frame above 0 is an invalid
/// page; and demand paging, which changes nothing in these cases, also
/// reports an invalid page when a page must come in and no frame is free.
pub proof fn lemma_translation_failures(
    va: VirtualAddress,
    mem: Seq<i32>,
    disk: Seq<i32>,
    free: Seq<u32>,
)
    requires
        2 * va.s + 1 < PM_SIZE,
    ensures
        mem[2 * va.s] == 0 && mem[2 * va.s + 1] == 0 ==> translation(va, mem) == Some(
            TranslationResult::InvalidSegment,
        ) && demand_translation(va, mem, disk, free) == Some(
            (TranslationResult::InvalidSegment, mem, free),
        ),
        !(mem[2 * va.s] == 0 && mem[2 * va.s + 1] == 0) && va.pw < size_as_unsigned(mem[2 * va.s])
            && mem[2 * va.s + 1] <= 0 ==> translation(va, mem) == Some(
            TranslationResult::InvalidSegment,
        ),
        va.pw < size_as_unsigned(mem[2 * va.s]) && mem[2 * va.s + 1] > 0 && mem[2 * va.s + 1]
            * 512 + va.p < PM_SIZE && mem[mem[2 * va.s + 1] * 512 + va.p] <= 0 ==> translation(
            va,
            mem,
        ) == Some(TranslationResult::InvalidPage),
        !(mem[2 * va.s] == 0 && mem[2 * va.s + 1] == 0) && va.pw < size_as_unsigned(mem[2 * va.s])
            && mem[2 * va.s + 1] >= 0 && mem[2 * va.s + 1] * 512 + va.p < PM_SIZE
            && mem[mem[2 * va.s + 1] * 512 + va.p] == 0 ==> demand_translation(va, mem, disk, free)
            == Some((TranslationResult::InvalidPage, mem, free)),
        !(mem[2 * va.s] == 0 && mem[2 * va.s + 1] == 0) && va.pw < size_as_unsigned(mem[2 * va.s])
            && mem[2 * va.s + 1] >= 0 && mem[2 * va.s + 1] * 512 + va.p < PM_SIZE && 0 < -mem[mem[2
            * va.s + 1] * 512 + va.p] < DISK_BLOCKS && free.len() == 0 ==> demand_translation(
            va,
            mem,
            disk,
            free,
        ) == Some((TranslationResult::InvalidPage, mem, free)),
{
}

/// The number written for a translation is its physical address on success
/// and `-1` for every failure.
pub proof fn lemma_output_numbers(pa: i32)
    ensures
        output_of(TranslationResult::Success(pa)) == pa,
        output_of(TranslationResult::SegmentBoundaryViolation) == -1,
        output_of(TranslationResult::InvalidSegment) == -1,
        output_of(TranslationResult::InvalidPage) == -1,
{
}

/// No entry after the `k`th is for the same segment.
pub open spec fn last_for_its_segment(st: Seq<(u32, i32, i32)>, k: int) -> bool {
    forall|j: int| k < j < st.len() ==> #[trigger] st[j].0 != st[k].0
}

/// Word `i` is neither word of any entry's segment.
pub open spec fn no_entry_word(st: Seq<(u32, i32, i32)>, i: int) -> bool {
    forall|k: int| 0 <= k < st.len() ==> i != 2 * (#[trigger] st[k]).0 && i != 2 * st[k].0 + 1
}

/// Installing segment-table entries writes each entry's size and location
/// into its segment's two words, unless a later entry is for the same
/// segment, and leaves every word that is no entry's untouched.
#[verifier::rlimit(50)]
pub proof fn lemma_install_segment_entries(st: Seq<(u32, i32, i32)>, mem: Seq<i32>)
    requires
        mem.len() == PM_SIZE,
        forall|k: int| 0 <= k < st.len() ==> 2 * (#[trigger] st[k]).0 + 1 < PM_SIZE,
    ensures
        image_after_st_entries(st, mem) is Some,
        image_after_st_entries(st, mem)->0.len() == mem.len(),
        forall|k: int|
            0 <= k < st.len() && last_for_its_segment(st, k) ==> image_after_st_entries(st, mem)->0[2 * (#[trigger] st[k]).0] == st[k].1
                && image_after_st_entries(st, mem)->0[2 * st[k].0 + 1] == st[k].2,
        forall|i: int|
            0 <= i < mem.len() && no_entry_word(st, i) ==> #[trigger] image_after_st_entries(
                st,
                mem,
            )->0[i] == mem[i],
    decreases st.len(),
{
    if st.len() > 0 {
        let prev = st.drop_last();
        assert forall|k: int| 0 <= k < prev.len() implies 2 * (#[trigger] prev[k]).0 + 1
            < PM_SIZE by {
            assert(prev[k] == st[k]);
        }
        lemma_install_segment_entries(prev, mem);
        let m0 = image_after_st_entries(prev, mem)->0;
        let m = image_after_st_entries(st, mem)->0;
        let n = st.len() - 1;
        assert(2 * st[n].0 + 1 < PM_SIZE);
        assert(st.last() == st[n]);
        assert(m == m0.update(2 * st[n].0, st[n].1).update(2 * st[n].0 + 1, st[n].2));
        assert(m0.len() == PM_SIZE);
        assert forall|k: int|
            0 <= k < st.len() && last_for_its_segment(st, k) implies m[2 * (#[trigger] st[k]).0] == st[k].1 && m[2 * st[k].0 + 1] == st[k].2 by {
            if k < n {
                assert(prev[k] == st[k]);
                assert(st[n].0 != st[k].0);
                assert forall|j: int| k < j < prev.len() implies #[trigger] prev[j].0 != prev[k].0 by {
                    assert(prev[j] == st[j]);
                    assert(st[j].0 != st[k].0);
                }
                assert(last_for_its_segment(prev, k));
            }
        }
        assert forall|i: int| 0 <= i < mem.len() && no_entry_word(st, i) implies #[trigger] m[i]
            == mem[i] by {
            assert(i != 2 * st[n].0 && i != 2 * st[n].0 + 1);
            assert forall|k: int| 0 <= k < prev.len() implies i != 2 * (#[trigger] prev[k]).0 && i
                != 2 * prev[k].0 + 1 by {
                assert(prev[k] == st[k]);
            }
            assert(no_entry_word(prev, i));
        }
    }
}

} // verus!
