//! Audit-scope management: which paths of a code base are in scope, which are
//! out of scope, and the scope marker at the top of each in-scope file.
pub mod text;
pub mod paths;
pub mod markers;
pub mod entries;
pub mod runs;
