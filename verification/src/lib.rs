//! Locates the content libraries that a game platform registers in its
//! key-value configuration file and plans the cleanup of the cached
//! workshop content in each of them: parsing, library-root resolution,
//! path derivation, and the run's step-by-step decisions are verified;
//! the host's registry query and the file removals themselves are
//! outside collaborators.

pub mod driver;
pub mod parse;
pub mod paths;
pub mod resolve;
pub mod tree;
pub mod unescape;
