//! A hardening layer for a C-style memory allocator, centred on a registry of
//! extant allocations: a sparse two-level bitmap keyed by
//! user-pointer-address divided by the minimum alignment.
//!
//! The registry ([`allocmap::AllocMap`]) supports `get`, `set` and
//! `test_and_clear` on an integer key, so that a deallocation or size query
//! for a pointer that was never handed out (a wild free, a double free) can
//! be rejected instead of corrupting the heap.

pub mod allocmap;
pub mod shim;

pub use allocmap::AllocMap;
pub use shim::{mangle, demangle, outer_layout_and_margin, AllocInfo, FatAlloc};

