//! A breadth-first directory-tree search library.
//!
//! The heart of the crate is a lazily-driven traversal engine: a FIFO
//! frontier of directories still to expand, a FIFO staging buffer of
//! matched entries, a metadata cache that avoids repeated stat calls,
//! and a case-insensitive name/kind filter predicate. All filesystem
//! access is left to the caller, who feeds listed directory entries
//! back into the engine; everything the engine itself does is verified.

mod bfs;
mod cli;
mod file_info;
mod filter;
mod metadata_cache;
mod tree;

pub use bfs::DirEntry;
pub use bfs::SearchEngine;
pub use bfs::Step;
pub use bfs::bfs_search;
pub use cli::Cli;
pub use file_info::format_file_info;
pub use file_info::format_permission_bits;
pub use file_info::format_permissions;
pub use file_info::format_system_time;
pub use file_info::format_u64;
pub use file_info::pad_left;
pub use filter::SearchOptions;
pub use filter::apply_filters;
pub use metadata_cache::EntryKind;
pub use metadata_cache::Metadata;
pub use metadata_cache::MetadataCache;
pub use tree::Tree;
pub use tree::TreeNode;
pub use tree::search_tree;
