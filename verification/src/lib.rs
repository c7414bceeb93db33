//! Filesystem primitives for a file manager: the real casing of paths on
//! case-insensitive filesystems, the size of directory trees, the progress
//! stream of a file copy, and the deepest directory that a set of paths
//! shares.
//!
//! The crate decides and computes; it does no I/O. Where an operation needs
//! the filesystem (a directory listing, the metadata of a path, a sample of
//! a file's length) the caller reads it and hands the crate what it found.

pub mod mode;
pub mod path;
pub mod presence;
pub mod progress;
pub mod realpath;
pub mod root;
pub mod size;

pub use crate::mode::permissions;
pub use crate::path::{Component, FilePath};
pub use crate::presence::{maybe_exists, ok_or_not_found};
pub use crate::progress::{Event, Poller, Progress};
pub use crate::realpath::{symlink_realpath_with, Realpath, RealpathCache};
pub use crate::root::max_common_root;
pub use crate::size::{Entry, Found, Meta, SizeScan};
