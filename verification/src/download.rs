//! Local paths for the downloader: each discovered URL is mapped to a
//! path under the download folder that mirrors its path under the
//! site's base URL.

use vstd::prelude::*;
use vstd::string::*;
use crate::strutil::{has_prefix, starts_with_str};
use crate::urljoin::{handle_slashes, spec_join};

verus! {

/// The one way building a download path fails: the URL does not lie
/// under the site's base URL.
#[derive(Debug, Clone, Copy, PartialEq, Eq, Structural)]
pub enum PathError {
    PrefixMismatch,
}

/// The folder part of a download's local path: the URL with the site
/// prefix replaced by the download folder, joined by the single-slash
/// rule.  Fails exactly when the URL does not carry the site prefix.
pub fn build_download_path(url: &str, website_url: &str, download_folder: &str) -> (r: Result<
    String,
    PathError,
>)
    ensures
        match r {
            Ok(p) => has_prefix(url@, website_url@) && p@ == spec_join(
                download_folder@,
                url@.subrange(website_url@.len() as int, url@.len() as int),
            ),
            Err(e) => !has_prefix(url@, website_url@) && e == PathError::PrefixMismatch,
        },
{
    if starts_with_str(url, website_url) {
        let sfx = url.substring_char(website_url.unicode_len(), url.unicode_len());
        Ok(handle_slashes(download_folder, sfx))
    } else {
        Err(PathError::PrefixMismatch)
    }
}

} // verus!
