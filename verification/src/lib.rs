//! A two-level (segment, page) virtual-memory simulator: address
//! decomposition, segment/page-table translation with and without demand
//! paging, and the loader that installs an initial memory image.

pub mod constants;
pub mod memory;
pub mod translation;
pub mod properties;
pub mod translation_laws;
pub mod text;
pub mod io;
pub mod simulation;
pub mod vm_manager;

pub use constants::{
    BLOCK_SIZE, DISK_BLOCKS, FRAME_SIZE, INVALID_ADDRESS, MAX_SEGMENTS, NUM_FRAMES, PAGE_SIZE,
    PM_SIZE, PT_SIZE, PW_MASK, P_BITS, P_MASK, P_SHIFT, ST_FRAMES, ST_SIZE, S_BITS, S_SHIFT, W_BITS,
    W_MASK,
};
pub use translation::{TranslationResult, VirtualAddress};

