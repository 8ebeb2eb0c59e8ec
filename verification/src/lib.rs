//! A certificate store kept in a Git repository, with keys encrypted by GPG:
//! the decisions and texts of the store, verified, for a command line that
//! runs `git`, `gpg` and the file system around them.
pub mod text;
pub mod number;
pub mod days;
pub mod gpg;
pub mod path;
pub mod git;
pub mod x509;
pub mod cert;
pub mod cli;
