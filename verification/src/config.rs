//! The crawl's configuration, as plain data.  Reading and decoding the
//! configuration file happens outside the library; the library only
//! consumes the assembled values.

use vstd::prelude::*;

verus! {

/// The whole configuration: the site's base URL, the whitelisted root
/// paths, where downloads go, the mirror list, and the two settings
/// groups.
#[derive(Debug, Clone)]
pub struct Config {
    pub url: String,
    pub whitelist: Vec<String>,
    pub download_path: Option<String>,
    pub mirrors: Vec<String>,
    pub download_settings: DownloadSettings,
    pub crawler_settings: CrawlerSettings,
    pub debug: Option<bool>,
}

/// Settings of the downloader collaborator.
#[derive(Debug, Clone)]
pub struct DownloadSettings {
    pub concurrency: usize,
}

/// Settings of the crawler: the worker bound, an optional fixed
/// per-request delay, and an optional retry cap.
#[derive(Debug, Clone)]
pub struct CrawlerSettings {
    pub concurrency_limit: Option<usize>,
    pub delay: Option<u64>,
    pub retry: Option<u8>,
}

} // verus!
