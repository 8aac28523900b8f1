use vstd::prelude::*;

use crate::constants::{DISK_BLOCKS, FRAME_SIZE, PM_SIZE};
use crate::memory::zero_words;

verus! {

/// A self-contained memory manager: flat physical memory, a flat paging
/// disk of `DISK_BLOCKS` frames, a list of free frames and whether demand
/// paging is on.
pub struct VMManager {
    pm: Vec<i32>,
    disk: Vec<i32>,
    free_frames: Vec<usize>,
    demand_paging: bool,
}

impl VMManager {
    /// The words of physical memory.
    pub closed spec fn memory(&self) -> Seq<i32> {
        self.pm@
    }

    /// The words of the paging disk.
    pub closed spec fn disk_words(&self) -> Seq<i32> {
        self.disk@
    }

    /// The free frames.
    pub closed spec fn free(&self) -> Seq<usize> {
        self.free_frames@
    }

    /// Whether demand paging is on.
    pub closed spec fn pages_on_demand(&self) -> bool {
        self.demand_paging
    }

    /// A manager with zeroed memory and disk and no free frames.
    pub fn new(demand_paging: bool) -> (m: Self)
        ensures
            m.memory() == zero_words(PM_SIZE as nat),
            m.disk_words() == zero_words((DISK_BLOCKS * FRAME_SIZE) as nat),
            m.free() == Seq::<usize>::empty(),
            m.pages_on_demand() == demand_paging,
    {
        let m = VMManager {
            pm: vec![0i32; PM_SIZE],
            disk: vec![0i32; DISK_BLOCKS * FRAME_SIZE],
            free_frames: Vec::new(),
            demand_paging,
        };
        assert(m.pm@ =~= zero_words(PM_SIZE as nat));
        assert(m.disk@ =~= zero_words((DISK_BLOCKS * FRAME_SIZE) as nat));
        m
    }
}

} // verus!
