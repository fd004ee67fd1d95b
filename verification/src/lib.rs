//! Virtual memory area (VMA) management for file-backed memory mappings.
//!
//! The library tracks which ranges of a virtual address space are backed by a
//! file, decides how to load file content page by page on first access, and
//! splits tracked ranges as the address space is reshaped.

mod addr;
mod file;
mod manager;
mod region;

pub use addr::{
    align_down, align_down_spec, lemma_align_down_mono, lemma_align_down_properties, PageSize,
    VirtAddrRange,
};
pub use file::{VmError, VmFile};
pub use manager::{
    kept_parts, lemma_add_region_disjoint, lemma_remove_overlapped_disjoint, pairwise_disjoint,
    removed_parts, removed_seq, retained_seq, VmaManager,
};
pub use region::{
    lemma_split_offset_correct, lemma_split_populated_partition, opt_model, pop_of, MmapRegion,
    RegionModel,
};
