use vstd::prelude::*;

use crate::constants::{BLOCK_SIZE, DISK_BLOCKS, NUM_FRAMES, PAGE_SIZE, PM_SIZE, ST_FRAMES};

verus! {

/// `n` words, all zero.
pub open spec fn zero_words(n: nat) -> Seq<i32> {
    Seq::new(n, |i: int| 0i32)
}

/// Memory address of the word that holds the size of segment `s`.
pub open spec fn segment_size_addr(s: int) -> int {
    2 * s
}

/// Memory address of the word that holds the page-table location of segment `s`.
pub open spec fn segment_pt_addr(s: int) -> int {
    2 * s + 1
}

/// Memory address of the first word of frame `frame`.
pub open spec fn frame_base(frame: int) -> int {
    frame * PAGE_SIZE
}

/// Memory address of entry `page` of the page table held in frame `pt_frame`.
pub open spec fn page_entry_addr(pt_frame: int, page: int) -> int {
    frame_base(pt_frame) + page
}

/// `mem` with the `PAGE_SIZE` words starting at `start` replaced by `words`.
pub open spec fn overwrite_words(mem: Seq<i32>, start: int, words: Seq<i32>) -> Seq<i32> {
    Seq::new(
        mem.len(),
        |j: int|
            if start <= j < start + PAGE_SIZE {
                words[j - start]
            } else {
                mem[j]
            },
    )
}

/// Physical memory: `PM_SIZE` words. Words `0..ST_SIZE` hold the segment
/// table; frame `f` occupies words `f * PAGE_SIZE .. (f + 1) * PAGE_SIZE`.
pub struct PhysicalMemory {
    data: Vec<i32>,
}

impl PhysicalMemory {
    /// The words of memory, in address order.
    pub closed spec fn view(&self) -> Seq<i32> {
        self.data@
    }

    /// Memory always holds exactly `PM_SIZE` words.
    pub open spec fn wf(&self) -> bool {
        self@.len() == PM_SIZE
    }

    /// Memory with every word zero.
    pub fn new() -> (pm: Self)
        ensures
            pm.wf(),
            pm@ == zero_words(PM_SIZE as nat),
    {
        let pm = PhysicalMemory { data: vec![0i32; PM_SIZE] };
        assert(pm@ =~= zero_words(PM_SIZE as nat));
        pm
    }

    /// The word at `address`.
    pub fn read(&self, address: usize) -> (value: i32)
        requires
            self.wf(),
            address < PM_SIZE,
        ensures
            value == self@[address as int],
    {
        self.data[address]
    }

    /// Stores `value` at `address`.
    pub fn write(&mut self, address: usize, value: i32)
        requires
            old(self).wf(),
            address < PM_SIZE,
        ensures
            final(self)@ == old(self)@.update(address as int, value),
    {
        self.data.set(address, value);
    }

    /// The size recorded in the segment-table entry of `segment`.
    pub fn get_segment_size(&self, segment: u32) -> (size: i32)
        requires
            self.wf(),
            segment_size_addr(segment as int) < PM_SIZE,
        ensures
            size == self@[segment_size_addr(segment as int)],
    {
        self.data[2 * segment as usize]
    }

    /// The page-table location recorded in the segment-table entry of `segment`:
    /// a frame when positive, a disk block when negative.
    pub fn get_segment_pt_location(&self, segment: u32) -> (location: i32)
        requires
            self.wf(),
            segment_pt_addr(segment as int) < PM_SIZE,
        ensures
            location == self@[segment_pt_addr(segment as int)],
    {
        self.data[2 * segment as usize + 1]
    }

    /// Records `size` and `pt_location` in the segment-table entry of `segment`.
    pub fn set_segment_entry(&mut self, segment: u32, size: i32, pt_location: i32)
        requires
            old(self).wf(),
            segment_pt_addr(segment as int) < PM_SIZE,
        ensures
            final(self)@ == old(self)@.update(segment_size_addr(segment as int), size).update(
                segment_pt_addr(segment as int),
                pt_location,
            ),
    {
        let base = 2 * segment as usize;
        self.data.set(base, size);
        self.data.set(base + 1, pt_location);
    }

    /// Entry `page` of the page table held in frame `pt_frame`.
    pub fn get_page_frame(&self, pt_frame: i32, page: u32) -> (entry: i32)
        requires
            self.wf(),
            0 <= pt_frame,
            page_entry_addr(pt_frame as int, page as int) < PM_SIZE,
        ensures
            entry == self@[page_entry_addr(pt_frame as int, page as int)],
    {
        let pt_base = pt_frame as usize * PAGE_SIZE;
        self.data[pt_base + page as usize]
    }

    /// Sets entry `page` of the page table held in frame `pt_frame` to `frame_location`.
    pub fn set_page_entry(&mut self, pt_frame: i32, page: u32, frame_location: i32)
        requires
            old(self).wf(),
            0 <= pt_frame,
            page_entry_addr(pt_frame as int, page as int) < PM_SIZE,
        ensures
            final(self)@ == old(self)@.update(
                page_entry_addr(pt_frame as int, page as int),
                frame_location,
            ),
    {
        let pt_base = pt_frame as usize * PAGE_SIZE;
        self.data.set(pt_base + page as usize, frame_location);
    }

    /// The address of the first word of `frame`.
    pub fn frame_to_address(frame: i32) -> (address: usize)
        requires
            0 <= frame,
            frame_base(frame as int) <= usize::MAX,
        ensures
            address == frame_base(frame as int),
    {
        frame as usize * PAGE_SIZE
    }
}

impl Default for PhysicalMemory {
    fn default() -> (pm: Self)
        ensures
            pm.wf(),
            pm@ == zero_words(PM_SIZE as nat),
    {
        Self::new()
    }
}

/// The paging disk: `DISK_BLOCKS` blocks of `BLOCK_SIZE` words each, stored
/// block after block.
pub struct Disk {
    data: Vec<i32>,
}

/// Position in the disk's word sequence of word `offset` of block `block`.
pub open spec fn disk_index(block: int, offset: int) -> int {
    block * BLOCK_SIZE + offset
}

impl Disk {
    /// All words of the disk, block after block.
    pub closed spec fn view(&self) -> Seq<i32> {
        self.data@
    }

    /// The disk always holds exactly `DISK_BLOCKS` blocks.
    pub open spec fn wf(&self) -> bool {
        self@.len() == DISK_BLOCKS * BLOCK_SIZE
    }

    /// The words of block `block`.
    pub open spec fn block(&self, block: int) -> Seq<i32> {
        self@.subrange(disk_index(block, 0), disk_index(block, BLOCK_SIZE as int))
    }

    /// A disk with every word zero.
    pub fn new() -> (disk: Self)
        ensures
            disk.wf(),
            disk@ == zero_words((DISK_BLOCKS * BLOCK_SIZE) as nat),
    {
        let disk = Disk { data: vec![0i32; DISK_BLOCKS * BLOCK_SIZE] };
        assert(disk@ =~= zero_words((DISK_BLOCKS * BLOCK_SIZE) as nat));
        disk
    }

    /// Word `offset` of block `block`.
    pub fn read(&self, block: usize, offset: usize) -> (value: i32)
        requires
            self.wf(),
            block < DISK_BLOCKS,
            offset < BLOCK_SIZE,
        ensures
            value == self@[disk_index(block as int, offset as int)],
    {
        self.data[block * BLOCK_SIZE + offset]
    }

    /// Stores `value` as word `offset` of block `block`.
    pub fn write(&mut self, block: usize, offset: usize, value: i32)
        requires
            old(self).wf(),
            block < DISK_BLOCKS,
            offset < BLOCK_SIZE,
        ensures
            final(self)@ == old(self)@.update(disk_index(block as int, offset as int), value),
    {
        self.data.set(block * BLOCK_SIZE + offset, value);
    }

    /// Copies block `block` into physical memory, starting at word `pm_start`.
    pub fn read_block(&self, block: usize, pm: &mut PhysicalMemory, pm_start: usize)
        requires
            self.wf(),
            old(pm).wf(),
            block < DISK_BLOCKS,
            pm_start + BLOCK_SIZE <= PM_SIZE,
        ensures
            final(pm)@ == overwrite_words(old(pm)@, pm_start as int, self.block(block as int)),
    {
        let ghost blk = self.block(block as int);
        let ghost start = pm_start as int;
        let mut i: usize = 0;
        while i < BLOCK_SIZE
            invariant
                i <= BLOCK_SIZE,
                self.wf(),
                block < DISK_BLOCKS,
                pm_start + BLOCK_SIZE <= PM_SIZE,
                blk == self.block(block as int),
                start == pm_start,
                pm@.len() == old(pm)@.len(),
                old(pm).wf(),
                forall|j: int|
                    0 <= j < PM_SIZE ==> #[trigger] pm@[j] == if start <= j < start + i {
                        blk[j - start]
                    } else {
                        old(pm)@[j]
                    },
            decreases BLOCK_SIZE - i,
        {
            let v = self.data[block * BLOCK_SIZE + i];
            pm.write(pm_start + i, v);
            i = i + 1;
        }
        assert(pm@ =~= overwrite_words(old(pm)@, start, blk));
    }

    /// Loads the page table stored in block `disk_block` into frame `frame`.
    pub fn load_pt_from_disk(&self, disk_block: usize, frame: u32, pm: &mut PhysicalMemory)
        requires
            self.wf(),
            old(pm).wf(),
            disk_block < DISK_BLOCKS,
            frame < NUM_FRAMES,
        ensures
            final(pm)@ == overwrite_words(
                old(pm)@,
                frame_base(frame as int),
                self.block(disk_block as int),
            ),
    {
        let pm_start = PhysicalMemory::frame_to_address(frame as i32);
        self.read_block(disk_block, pm, pm_start);
    }

    /// Loads the page stored in block `disk_block` into frame `frame`.
    pub fn load_page_from_disk(&self, disk_block: usize, frame: u32, pm: &mut PhysicalMemory)
        requires
            self.wf(),
            old(pm).wf(),
            disk_block < DISK_BLOCKS,
            frame < NUM_FRAMES,
        ensures
            final(pm)@ == overwrite_words(
                old(pm)@,
                frame_base(frame as int),
                self.block(disk_block as int),
            ),
    {
        let pm_start = PhysicalMemory::frame_to_address(frame as i32);
        self.read_block(disk_block, pm, pm_start);
    }
}

impl Default for Disk {
    fn default() -> (disk: Self)
        ensures
            disk.wf(),
            disk@ == zero_words((DISK_BLOCKS * BLOCK_SIZE) as nat),
    {
        Self::new()
    }
}

} // verus!

verus! {

/// Free frames, kept as a stack whose top (the last element) is the smallest
/// free frame; frames are handed out from the top.
pub struct FreeFrameList {
    free_frames: Vec<u32>,
}

/// `frames` is strictly decreasing and every frame lies outside the segment
/// table and inside physical memory.
pub open spec fn valid_free_stack(frames: Seq<u32>) -> bool {
    &&& forall|i: int, j: int| 0 <= i < j < frames.len() ==> frames[i] > frames[j]
    &&& forall|i: int| 0 <= i < frames.len() ==> ST_FRAMES <= #[trigger] frames[i] < NUM_FRAMES
}

/// The free list of a freshly initialised memory: every frame from
/// `NUM_FRAMES - 1` down to `ST_FRAMES`.
pub open spec fn initial_free_frames() -> Seq<u32> {
    Seq::new((NUM_FRAMES - ST_FRAMES) as nat, |i: int| (NUM_FRAMES - 1 - i) as u32)
}

/// Filtering a valid free stack keeps it valid and keeps exactly the frames
/// that satisfy `keep`.
pub proof fn lemma_filter_free_stack(frames: Seq<u32>, keep: spec_fn(u32) -> bool)
    requires
        valid_free_stack(frames),
    ensures
        valid_free_stack(frames.filter(keep)),
        forall|f: u32| #[trigger]
            frames.filter(keep).contains(f) <==> (frames.contains(f) && keep(f)),
    decreases frames.len(),
{
    reveal(Seq::filter);
    if frames.len() > 0 {
        let rest = frames.drop_last();
        lemma_filter_free_stack(rest, keep);
        let fr = rest.filter(keep);
        assert forall|f: u32| #[trigger] rest.contains(f) implies f > frames.last() by {
            let i = choose|i: int| 0 <= i < rest.len() && rest[i] == f;
            assert(frames[i] == f);
        }
        assert forall|f: u32| frames.contains(f) <==> (rest.contains(f) || f == frames.last()) by {
            if frames.contains(f) {
                let i = choose|i: int| 0 <= i < frames.len() && frames[i] == f;
                if i < frames.len() - 1 {
                    assert(rest[i] == f);
                }
            }
            if rest.contains(f) {
                let i = choose|i: int| 0 <= i < rest.len() && rest[i] == f;
                assert(frames[i] == f);
            }
        }
        if keep(frames.last()) {
            let out = fr.push(frames.last());
            assert forall|i: int, j: int| 0 <= i < j < out.len() implies out[i] > out[j] by {
                if j < out.len() - 1 {
                } else {
                    assert(fr.contains(out[i]));
                }
            }
            assert forall|f: u32| out.contains(f) <==> (fr.contains(f) || f == frames.last()) by {
                if out.contains(f) {
                    let i = choose|i: int| 0 <= i < out.len() && out[i] == f;
                    if i < out.len() - 1 {
                        assert(fr[i] == f);
                    }
                }
                if fr.contains(f) {
                    let i = choose|i: int| 0 <= i < fr.len() && fr[i] == f;
                    assert(out[i] == f);
                }
                if f == frames.last() {
                    assert(out[out.len() - 1] == f);
                }
            }
        }
    }
}

/// A valid free stack is determined by the frames it holds.
pub proof fn lemma_free_stack_unique(a: Seq<u32>, b: Seq<u32>)
    requires
        valid_free_stack(a),
        valid_free_stack(b),
        forall|f: u32| #[trigger] a.contains(f) <==> b.contains(f),
    ensures
        a == b,
    decreases a.len(),
{
    if a.len() == 0 {
        if b.len() > 0 {
            assert(b.contains(b[0]));
            assert(a.contains(b[0]));
        }
        assert(a =~= b);
    } else {
        assert(a.contains(a[0]));
        assert(b.contains(a[0]));
        let j = choose|j: int| 0 <= j < b.len() && b[j] == a[0];
        assert(b.contains(b[0]));
        assert(a.contains(b[0]));
        let i = choose|i: int| 0 <= i < a.len() && a[i] == b[0];
        if j != 0 {
            assert(b[0] > b[j]);
            if i != 0 {
                assert(a[0] > a[i]);
            }
            assert(false);
        }
        let a1 = a.drop_first();
        let b1 = b.drop_first();
        assert forall|f: u32| #[trigger] a1.contains(f) <==> b1.contains(f) by {
            if a1.contains(f) {
                let k = choose|k: int| 0 <= k < a1.len() && a1[k] == f;
                assert(a[k + 1] == f);
                assert(a[0] > a[k + 1]);
                assert(a.contains(f));
                assert(b.contains(f));
                let m = choose|m: int| 0 <= m < b.len() && b[m] == f;
                assert(m != 0);
                assert(b1[m - 1] == f);
            }
            if b1.contains(f) {
                let k = choose|k: int| 0 <= k < b1.len() && b1[k] == f;
                assert(b[k + 1] == f);
                assert(b[0] > b[k + 1]);
                assert(b.contains(f));
                assert(a.contains(f));
                let m = choose|m: int| 0 <= m < a.len() && a[m] == f;
                assert(m != 0);
                assert(a1[m - 1] == f);
            }
        }
        lemma_free_stack_unique(a1, b1);
        assert(a =~= b) by {
            assert forall|k: int| 0 <= k < a.len() implies a[k] == b[k] by {
                if k > 0 {
                    assert(a1[k - 1] == b1[k - 1]);
                }
            }
        }
    }
}

/// Holds of every frame other than `frame`.
pub open spec fn other_than(frame: u32) -> spec_fn(u32) -> bool {
    |x: u32| x != frame
}

/// `frames` without `frame`, order kept.
pub open spec fn without_frame(frames: Seq<u32>, frame: u32) -> Seq<u32> {
    frames.filter(other_than(frame))
}

/// A call on a free-frame list.
pub enum FreeListOp {
    /// `mark_occupied(frame)`.
    MarkOccupied(u32),
    /// `allocate()`.
    Allocate,
}

/// What one call does to the free frames `frames`: the frames afterwards and
/// the frame handed out, if any.
pub open spec fn free_list_step(frames: Seq<u32>, op: FreeListOp) -> (Seq<u32>, Option<u32>) {
    match op {
        FreeListOp::MarkOccupied(f) => (without_frame(frames, f), None),
        FreeListOp::Allocate => if frames.len() == 0 {
            (frames, None)
        } else {
            (frames.drop_last(), Some(frames.last()))
        },
    }
}

/// The calls `ops`, one after another, on the free frames `frames`: the
/// frames afterwards and, for each call, the frame it handed out.
pub open spec fn free_list_run(frames: Seq<u32>, ops: Seq<FreeListOp>) -> (
    Seq<u32>,
    Seq<Option<u32>>,
)
    decreases ops.len(),
{
    if ops.len() == 0 {
        (frames, Seq::empty())
    } else {
        let (mid, outs) = free_list_run(frames, ops.drop_last());
        let (after, out) = free_list_step(mid, ops.last());
        (after, outs.push(out))
    }
}

/// Over any sequence of calls on a valid free-frame list (such as a new
/// one), the frames handed out strictly increase, so none is handed out
/// twice; each was in the list at the start, so lies in
/// `ST_FRAMES..NUM_FRAMES`; and none was marked occupied by an earlier call.
pub proof fn lemma_allocation_order(start: Seq<u32>, ops: Seq<FreeListOp>)
    requires
        valid_free_stack(start),
    ensures
        ({
            let (frames, outs) = free_list_run(start, ops);
            &&& outs.len() == ops.len()
            &&& valid_free_stack(frames)
            &&& forall|i: int|
                0 <= i < outs.len() && (#[trigger] outs[i]) is Some ==> {
                    &&& ops[i] is Allocate
                    &&& start.contains(outs[i]->0)
                    &&& ST_FRAMES <= outs[i]->0 < NUM_FRAMES
                }
            &&& forall|i: int, j: int|
                0 <= i < j < outs.len() && (#[trigger] outs[i]) is Some && (#[trigger] outs[j]) is Some
                    ==> outs[i]->0 < outs[j]->0
            &&& forall|k: int, i: int|
                0 <= k < i < outs.len() && (#[trigger] ops[k]) is MarkOccupied
                    && (#[trigger] outs[i]) is Some ==> ops[k]->0 != outs[i]->0
            &&& forall|i: int, x: u32|
                0 <= i < outs.len() && (#[trigger] outs[i]) is Some && #[trigger] frames.contains(x)
                    ==> outs[i]->0 < x
            &&& forall|k: int|
                0 <= k < ops.len() && (#[trigger] ops[k]) is MarkOccupied ==> !frames.contains(
                    ops[k]->0,
                )
            &&& forall|x: u32| #[trigger] frames.contains(x) ==> start.contains(x)
        }),
    decreases ops.len(),
{
    if ops.len() > 0 {
        let prev = ops.drop_last();
        lemma_allocation_order(start, prev);
        let (mid, outs0) = free_list_run(start, prev);
        let (frames, outs) = free_list_run(start, ops);
        let op = ops.last();
        assert forall|k: int| 0 <= k < prev.len() implies prev[k] == ops[k] by {}
        assert forall|i: int| 0 <= i < outs0.len() implies outs0[i] == outs[i] by {}
        match op {
            FreeListOp::MarkOccupied(g) => {
                lemma_filter_free_stack(mid, other_than(g));
                assert(outs[outs.len() - 1] is None);
            },
            FreeListOp::Allocate => {
                if mid.len() == 0 {
                    assert(outs[outs.len() - 1] is None);
                } else {
                    let f = mid.last();
                    assert(mid.contains(f));
                    assert forall|x: u32| #[trigger] frames.contains(x) implies mid.contains(x)
                        && f < x by {
                        let m = choose|m: int| 0 <= m < frames.len() && frames[m] == x;
                        assert(mid[m] == x);
                    }
                }
            },
        }
    }
}

impl FreeFrameList {
    /// The free frames, bottom of the stack first.
    pub closed spec fn view(&self) -> Seq<u32> {
        self.free_frames@
    }

    pub open spec fn wf(&self) -> bool {
        valid_free_stack(self@)
    }

    /// Every frame outside the segment table is free.
    pub fn new() -> (ffl: Self)
        ensures
            ffl.wf(),
            ffl@ == initial_free_frames(),
    {
        let mut free_frames: Vec<u32> = Vec::new();
        let mut f: u32 = NUM_FRAMES as u32;
        while f > ST_FRAMES as u32
            invariant
                ST_FRAMES <= f <= NUM_FRAMES,
                free_frames@.len() == NUM_FRAMES - f,
                forall|i: int|
                    0 <= i < free_frames@.len() ==> #[trigger] free_frames@[i] == NUM_FRAMES
                        - 1 - i,
            decreases f,
        {
            f = f - 1;
            free_frames.push(f);
        }
        assert(free_frames@ =~= initial_free_frames());
        FreeFrameList { free_frames }
    }

    /// Removes `frame` from the free list, if it is there.
    pub fn mark_occupied(&mut self, frame: u32)
        requires
            old(self).wf(),
        ensures
            final(self).wf(),
            final(self)@ == without_frame(old(self)@, frame),
            free_list_step(old(self)@, FreeListOp::MarkOccupied(frame)) == (
                final(self)@,
                None::<u32>,
            ),
            forall|f: u32| #[trigger]
                final(self)@.contains(f) <==> (old(self)@.contains(f) && f != frame),
    {
        let mut pos: usize = 0;
        while pos < self.free_frames.len() && self.free_frames[pos] != frame
            invariant
                pos <= self.free_frames@.len(),
                forall|i: int| 0 <= i < pos ==> self.free_frames@[i] != frame,
            decreases self.free_frames@.len() - pos,
        {
            pos = pos + 1;
        }
        let ghost old_frames = self.free_frames@;
        if pos < self.free_frames.len() {
            self.free_frames.remove(pos);
            let ghost new_frames = self.free_frames@;
            assert forall|i: int| 0 <= i < new_frames.len() implies new_frames[i] == if i < pos {
                old_frames[i]
            } else {
                old_frames[i + 1]
            } by {}
            assert forall|f: u32| new_frames.contains(f) <==> (old_frames.contains(f) && f
                != frame) by {
                if new_frames.contains(f) {
                    let i = choose|i: int| 0 <= i < new_frames.len() && new_frames[i] == f;
                    if i < pos {
                        assert(old_frames[i] == f);
                    } else {
                        assert(old_frames[i + 1] == f);
                    }
                }
                if old_frames.contains(f) && f != frame {
                    let i = choose|i: int| 0 <= i < old_frames.len() && old_frames[i] == f;
                    if i < pos {
                        assert(new_frames[i] == f);
                    } else {
                        assert(i != pos);
                        assert(new_frames[i - 1] == f);
                    }
                }
            }
        } else {
            assert forall|f: u32| old_frames.contains(f) implies f != frame by {
                let i = choose|i: int| 0 <= i < old_frames.len() && old_frames[i] == f;
            }
        }
        proof {
            lemma_filter_free_stack(old_frames, other_than(frame));
            lemma_free_stack_unique(self.free_frames@, without_frame(old_frames, frame));
        }
    }

    /// Takes the smallest free frame off the list, or `None` when no frame is free.
    pub fn allocate(&mut self) -> (frame: Option<u32>)
        requires
            old(self).wf(),
        ensures
            final(self).wf(),
            old(self)@.len() == 0 ==> frame is None && final(self)@ == old(self)@,
            old(self)@.len() > 0 ==> frame == Some(old(self)@.last()) && final(self)@ == old(
                self,
            )@.drop_last(),
            frame matches Some(f) ==> forall|i: int|
                0 <= i < old(self)@.len() ==> f <= #[trigger] old(self)@[i],
            frame matches Some(f) ==> !final(self)@.contains(f),
            free_list_step(old(self)@, FreeListOp::Allocate) == (final(self)@, frame),
    {
        self.free_frames.pop()
    }
}

impl Default for FreeFrameList {
    fn default() -> (ffl: Self)
        ensures
            ffl.wf(),
            ffl@ == initial_free_frames(),
    {
        Self::new()
    }
}

} // verus!
