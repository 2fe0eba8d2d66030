//! The verified core of a filesystem that shows a source tree by tags.
pub mod order;
pub mod sorted_set;
pub mod sorted_map;
pub mod path;
pub mod text;
pub mod names;
pub mod scanner;
pub mod inode;
pub mod state;
pub mod changes;
pub mod rename_tag;
pub mod moves;
pub mod tagfs;
pub mod ops;
pub mod listing;
pub mod attr;
pub mod laws;
