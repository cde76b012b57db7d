//! A two-sided asset pipeline: a build-time synchronizer that keeps a tree of
//! compressed artifacts consistent with a tree of canonical build outputs, and
//! a request handler that picks the representation of an asset to serve.
//!
//! Build time:
//! - [`naming`] holds the rule that names the artifact of an identity file,
//!   and its inverse;
//! - [`digest`] computes the content hash that the name of an asset carries;
//! - [`sync`] plans one pass of the synchronizer over listings of the two
//!   trees;
//! - [`effect`] says what carrying out a plan does to the artifact tree, and
//!   proves that one pass brings the trees in step and a second pass has
//!   nothing left to do.
//!
//! Run time:
//! - [`assets`] holds the files that can be served and picks the stored
//!   representation for a path;
//! - [`mime`] holds the content type of each path;
//! - [`serve`] decides what is sent back for a request: a stored file, the
//!   version stream, a rendered document, or status 400;
//! - [`template`] puts a rendered page into the index document;
//! - [`reload`] is what a page does with the versions it is told.
//!
//! The library touches no file and no socket. It works on listings, tables
//! and strings that its caller reads, and its answers say what the caller
//! has to write.

pub mod assets;
pub mod digest;
pub mod effect;
pub mod encoding;
pub mod mime;
pub mod naming;
pub mod reload;
pub mod serve;
pub mod sync;
pub mod table;
pub mod template;
pub mod text;
