//! A small documentation-bookmark library: a catalog maps short names to
//! descriptors of documentation pages (canonical url, optional full name,
//! repository, playground and search template).  The library resolves a
//! user-typed name against a catalog, merges a remote catalog into a local
//! one, and reads and writes the catalog's textual form.

pub mod strutil;
pub mod entry;
pub mod catalog;
pub mod resolver;
pub mod error;
pub mod log;
pub mod codec;
pub mod store;
