//! Size-bounded directory eviction.
//!
//! The library models a directory tree as a flat snapshot of entries
//! (`FileInfo`), measures the total size of the regular files in the
//! snapshot, and plans which files to delete, oldest first, so that the
//! total falls to a caller-given byte budget. All filesystem access is
//! left to the caller; the logic here is verified.
//!
//! Policy choices, fixed here once for all callers:
//! - size and eviction both range over the whole subtree the snapshot
//!   was taken from, and only regular files count or are candidates;
//!   symbolic links are neither counted nor followed nor deleted;
//! - candidates are removed oldest modification time first, ties
//!   broken by the path's byte order, so runs are reproducible;
//! - a deletion that fails is skipped and reported as not removed;
//!   the pass goes on with the remaining candidates (`Evictor`).

mod entry;
mod evict;
mod evictor;
mod order;

pub use evictor::Evictor;
pub use evictor::paths_of;

pub use evict::files_of;
pub use evict::filter_files;
pub use evict::plan_from;
pub use evict::lemma_size_push;
pub use evict::lemma_size_remove;
pub use evict::lemma_size_permutation;
pub use evict::lemma_files_of_size;
pub use evict::lemma_files_of_files;
pub use evict::lemma_symlinks_excluded;
pub use evict::lemma_plan_prefix;
pub use evict::lemma_plan_props;
pub use evict::lemma_size_after_removal;
pub use evict::plan_eviction;

pub use order::lex_le;
pub use order::path_key;
pub use order::entry_le;
pub use order::entries_sorted;
pub use order::entry_le_exec;
pub use order::sort_entries;
pub use order::lemma_oldest_first;
pub use entry::EntryKind;
pub use entry::FileInfo;
pub use entry::size_of_entries;
pub use entry::entry_size;
pub use entry::is_file_entry;
pub use entry::get_size;
pub use entry::classify_entry;
