//! What holds of the filesystem as a whole.
pub mod plain;
pub mod basics;
pub mod paths;
pub mod requests;
pub mod inodes;
pub mod consistent;
pub mod views;
pub mod filed;
pub mod scanned;
pub mod hidden;
pub mod disk;
pub mod disk_tags;
pub mod runs;
pub mod outcomes;
pub mod reading;
pub mod found;
pub mod naming;
pub mod failed;
pub mod choices;
pub mod attrs;
pub mod disk_runs;
pub mod operations;
pub mod changing;
pub mod functions;
