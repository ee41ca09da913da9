//! Crawler core for a mirror of a hierarchical directory-listing site.
//!
//! The library holds the verified logic of the crawl pipeline: the link
//! classifier with its archive preference, the URL join rule, the visited
//! registry and frontier of the crawl coordinator, the retry state machine
//! of the fetcher, the listing-index parser and the text cleaner.  All
//! input/output (HTTP, files, archives) lives outside the library.

pub mod clean;
pub mod config;
pub mod crawler;
pub mod download;
pub mod fetch;
pub mod index;
pub mod linkset;
pub mod parser;
pub mod parser_laws;
pub mod strutil;
pub mod urljoin;
