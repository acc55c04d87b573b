//! A verified core for an interactive "clean up by file extension" tool.
//!
//! Paths are handled as byte strings (`Vec<u8>`), the natural representation
//! of Unix paths.  The library derives a normalized extension key from each
//! path, groups paths into an index keyed by extension, pages through a
//! bucket's paths, and moves the files of a chosen extension to the OS trash,
//! reporting one outcome per path.  All console interaction and directory
//! walking live outside the library and hand it plain values.

pub mod keys;
pub mod order;
pub mod index;
pub mod paginate;
pub mod deleter;
pub mod session;
