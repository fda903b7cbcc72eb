//! Core of a process-memory inspector: a region map parsed from the kernel's
//! per-process map listing, a byte-pattern scanner with first-pass and
//! refinement modes, a snapshot differ, a typed value codec, and a named
//! result store persisted as JSON.
//!
//! All logic here is verified; the thin shell that performs the actual
//! `/proc` I/O lives outside this crate and hands byte buffers in.

pub mod codec;
pub mod mem_image;
pub mod proc_search;
pub mod regions;
pub mod scan;
pub mod scanner;
pub mod snapshot;
pub mod store;
pub mod textnum;

pub use codec::NumKind;
pub use mem_image::MemImage;
pub use proc_search::ProcSearch;
pub use regions::MemRegion;
pub use scan::find_occurrences;
pub use scanner::NoviMem;
pub use scanner::SearchType;
pub use snapshot::SnapShot;
