//! A read-only view of a directory tree in which every immediate subdirectory
//! of a source directory appears as one pax tar archive, laid out as a sequence
//! of blocks that can be read at any offset.

use vstd::prelude::*;

pub mod blocks;
pub mod decimal;
pub mod entry;
pub mod error;
pub mod layout;
pub mod metadata;
pub mod snapshot_fs;
pub mod pax;
pub mod ustar;
