//! In-memory file trees for test fixtures: a directory maps unique names to
//! files or nested directories, and two trees are equal when they hold the same
//! names with equal entries, whatever the order the entries were added in.

mod builder;
mod laws;
mod tree;

pub use builder::{directory, fixture, shape_map, shape_node, Shape};
pub use laws::{
    lemma_empty_directory, lemma_file_never_equals_directory, lemma_last_write_wins,
    lemma_sibling_order, shape_names_unique,
};
pub use tree::{entries_map, names_unique, Directory, DirectoryContent, Node};
