//! Resolution core for a short-link service: a statically configured table
//! maps short names (and their aliases) to target URLs. A request's host is
//! classified as the bare base domain or as carrying a subdomain; the
//! candidate key is taken from the subdomain or from the first path segment,
//! and looked up through a two-level table (primary entries, then an
//! alias-to-primary index). The outcome is a redirect, the index page, or
//! not-found.

pub mod host;
pub mod index;
pub mod resolve;
pub mod strutil;
pub mod table;
