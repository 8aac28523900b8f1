use vstd::prelude::*;

verus! {

/// Number of bits of a virtual address that select the segment.
pub const S_BITS: u32 = 9;
/// Number of bits of a virtual address that select the page within a segment.
pub const P_BITS: u32 = 9;
/// Number of bits of a virtual address that select the word within a page.
pub const W_BITS: u32 = 9;

/// Words per page (and per frame): 2^W_BITS.
pub const PAGE_SIZE: usize = 512;
/// Entries per page table: 2^P_BITS.
pub const PT_SIZE: usize = 512;
/// Number of segments the segment table describes: 2^S_BITS.
pub const MAX_SEGMENTS: usize = 512;
/// Words of the segment table: two words (size, page-table location) per segment.
pub const ST_SIZE: usize = 1024;

/// Frames of physical memory.
pub const NUM_FRAMES: usize = 1024;
/// Words of physical memory: NUM_FRAMES * PAGE_SIZE.
pub const PM_SIZE: usize = 524288;
/// Frames occupied by the segment table (frames 0 and 1).
pub const ST_FRAMES: usize = 2;

/// Blocks of the paging disk.
pub const DISK_BLOCKS: usize = 1024;
/// Words per disk block; a block holds exactly one page.
pub const BLOCK_SIZE: usize = 512;
/// Words per frame, as the manager's flat layout counts them.
pub const FRAME_SIZE: usize = 512;

/// Mask of the word-offset bits: 2^W_BITS - 1.
pub const W_MASK: u32 = 511;
/// Mask of the page-number bits once shifted down: 2^P_BITS - 1.
pub const P_MASK: u32 = 511;
/// Mask of the page-and-offset bits: 2^(P_BITS + W_BITS) - 1.
pub const PW_MASK: u32 = 262143;

/// Shift that brings the page number to the low bits.
pub const P_SHIFT: u32 = 9;
/// Shift that brings the segment number to the low bits.
pub const S_SHIFT: u32 = 18;

/// Output value of a translation that did not produce a physical address.
pub const INVALID_ADDRESS: i32 = -1;

} // verus!
