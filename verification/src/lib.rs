//! Building firejail profile sections (private-bin, private-etc, home whitelists)
//! out of the trace files that `firejail --trace` writes. Every function is proved
//! against its contract; the one step taken on trust is glob matching, which the
//! `fnmatch-regex` crate does (see `filedb::glob_match`).
pub mod bin;
pub mod etc;
pub mod filedb;
pub mod home;
pub mod number;
pub mod paths;
pub mod text;
pub mod trace;
pub mod utils;
