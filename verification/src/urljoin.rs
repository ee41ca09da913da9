//! The single-slash join rule used to absolutize a page-relative location
//! against a base URL: exactly one `/` ends up between the two parts.

use vstd::prelude::*;
use vstd::string::*;
use crate::strutil::{ends_with_char, starts_with_char, ends_with_chr, starts_with_chr};

verus! {

/// The join rule.  If both the base ends with `/` and the suffix starts
/// with one, the suffix's slash is dropped; if exactly one of the two
/// holds, the parts are concatenated directly; if neither holds, one `/`
/// is inserted.
pub open spec fn spec_join(base: Seq<char>, url: Seq<char>) -> Seq<char> {
    if starts_with_char(url, '/') && ends_with_char(base, '/') {
        base + url.subrange(1, url.len() as int)
    } else if starts_with_char(url, '/') || ends_with_char(base, '/') {
        base + url
    } else {
        base + seq!['/'] + url
    }
}

/// Absolutize `url` against `base_url` with the single-slash join rule.
pub fn handle_slashes(base_url: &str, url: &str) -> (r: String)
    ensures
        r@ == spec_join(base_url@, url@),
{
    let url_slash = starts_with_chr(url, '/');
    let base_slash = ends_with_chr(base_url, '/');
    if url_slash && base_slash {
        let stripped = url.substring_char(1, url.unicode_len());
        String::from_str(base_url).concat(stripped)
    } else if url_slash || base_slash {
        String::from_str(base_url).concat(url)
    } else {
        let r = String::from_str(base_url).concat("/").concat(url);
        proof {
            reveal_strlit("/");
            assert(r@ =~= base_url@ + seq!['/'] + url@);
        }
        r
    }
}

} // verus!
