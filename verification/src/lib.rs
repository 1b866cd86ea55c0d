//! Locating an installed command-line tool and preparing the search path
//! used to launch it.
//!
//! The crate has two layers. `path_model` and `path_utils` treat an OS
//! search-path value (a separator-joined list of directory strings) as a
//! set of normalized directory identities: membership test, idempotent
//! insertion, full deduplication, and enrichment from candidate
//! directories. `claude_binary` builds on that to parse the version a
//! candidate binary reports, rank discovered installations, and construct
//! the environment for launching the chosen one.

pub mod claude_binary;
pub mod path_model;
pub mod path_utils;
