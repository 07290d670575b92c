//! Scans a directory tree for "code directories": directories whose direct
//! children hold a source file of a requested language, optionally
//! restricted to directories under version control.
//!
//! The crate is split into a language taxonomy ([`lang`]), a directory
//! classifier over an in-memory snapshot of the tree ([`walk`]), a
//! version-control status combinator ([`git`]), and the string helpers they
//! share ([`text`]).

pub mod git;
pub mod lang;
pub mod laws;
pub mod text;
pub mod walk;

pub use git::GitStatus;
pub use lang::Lang;
pub use walk::CodeDir;
