//! The link classifier.
//!
//! Given the current directory's URL and the raw `href` strings of one
//! listing page, the classifier groups hrefs by *base key* (the href with
//! its trailing slash or final extension removed), keeps one chosen href
//! per base key with archives preferred, suppresses directories and plain
//! files that have a same-named archive sibling, absolutizes the
//! survivors and splits them into directories and files.

use vstd::prelude::*;
use vstd::string::*;
use crate::strutil::{
    ends_with_char, has_prefix, ends_with_chr, starts_with_str, str_eq,
};
use crate::urljoin::{spec_join, handle_slashes};

verus! {

/// The archive suffix, `.zip`.
pub open spec fn zip_suffix() -> Seq<char> {
    seq!['.', 'z', 'i', 'p']
}

/// Index of the last `.` in `h`, or `-1` if `h` has none.
pub open spec fn last_dot(h: Seq<char>) -> int
    decreases h.len(),
{
    if h.len() == 0 {
        -1
    } else if h[h.len() - 1] == '.' {
        h.len() - 1
    } else {
        last_dot(h.drop_last())
    }
}

pub proof fn lemma_last_dot_range(s: Seq<char>)
    ensures
        -1 <= last_dot(s) < s.len(),
    decreases s.len(),
{
    if s.len() > 0 && s[s.len() - 1] != '.' {
        lemma_last_dot_range(s.drop_last());
    }
}

/// An href denotes a subdirectory when it ends with `/`.
pub open spec fn is_dir_href(h: Seq<char>) -> bool {
    ends_with_char(h, '/')
}

/// An href denotes an archive when it ends with `.zip`.
pub open spec fn is_zip_href(h: Seq<char>) -> bool {
    h.len() >= 4 && h.subrange(h.len() - 4, h.len() as int) == zip_suffix()
}

/// The base key of an href: the trailing slash is stripped if present,
/// else the text from the last `.` on, else the href itself.
pub open spec fn base_key(h: Seq<char>) -> Seq<char> {
    if is_dir_href(h) {
        h.drop_last()
    } else if last_dot(h) >= 0 {
        h.subrange(0, last_dot(h))
    } else {
        h
    }
}

/// The chosen href for `key` among the first `i` hrefs: the first href
/// with that base key, except that a later archive replaces a chosen
/// non-archive.
pub open spec fn chosen_upto(hs: Seq<Seq<char>>, i: int, key: Seq<char>) -> Option<Seq<char>>
    decreases i,
{
    if i <= 0 {
        None
    } else {
        let prev = chosen_upto(hs, i - 1, key);
        let h = hs[i - 1];
        if base_key(h) == key {
            match prev {
                None => Some(h),
                Some(c) => if !is_zip_href(c) && is_zip_href(h) {
                    Some(h)
                } else {
                    Some(c)
                },
            }
        } else {
            prev
        }
    }
}

/// The chosen href for `key` among all of `hs`.
pub open spec fn chosen_href(hs: Seq<Seq<char>>, key: Seq<char>) -> Option<Seq<char>> {
    chosen_upto(hs, hs.len() as int, key)
}

/// Some href in `hs` is exactly `key` followed by `.zip`.
pub open spec fn has_zip_sibling(hs: Seq<Seq<char>>, key: Seq<char>) -> bool {
    exists|j: int| 0 <= j < hs.len() && hs[j] == key + zip_suffix()
}

/// An href of `hs` survives classification when it is still the chosen
/// href for its base key and, unless it is itself an archive, no archive
/// sibling with the same base key exists.
pub open spec fn keeps(hs: Seq<Seq<char>>, h: Seq<char>) -> bool {
    let key = base_key(h);
    &&& !(is_dir_href(h) && has_zip_sibling(hs, key))
    &&& !(!is_dir_href(h) && !is_zip_href(h) && has_zip_sibling(hs, key))
    &&& chosen_href(hs, key) == Some(h)
}

/// The absolutized directory output for the first `i` hrefs, in input order.
pub open spec fn out_dirs(cur: Seq<char>, hs: Seq<Seq<char>>, i: int) -> Seq<Seq<char>>
    decreases i,
{
    if i <= 0 {
        Seq::empty()
    } else {
        let prev = out_dirs(cur, hs, i - 1);
        let joined = spec_join(cur, hs[i - 1]);
        if keeps(hs, hs[i - 1]) && is_dir_href(joined) {
            prev.push(joined)
        } else {
            prev
        }
    }
}

/// The absolutized file output (archives included) for the first `i` hrefs.
pub open spec fn out_files(cur: Seq<char>, hs: Seq<Seq<char>>, i: int) -> Seq<Seq<char>>
    decreases i,
{
    if i <= 0 {
        Seq::empty()
    } else {
        let prev = out_files(cur, hs, i - 1);
        let joined = spec_join(cur, hs[i - 1]);
        if keeps(hs, hs[i - 1]) && !is_dir_href(joined) {
            prev.push(joined)
        } else {
            prev
        }
    }
}

/// The conventional parent-directory href, `../`.
pub open spec fn parent_href() -> Seq<char> {
    seq!['.', '.', '/']
}

/// The first `i` hrefs with every parent-directory link removed.
pub open spec fn non_parent(hs: Seq<Seq<char>>, i: int) -> Seq<Seq<char>>
    decreases i,
{
    if i <= 0 {
        Seq::empty()
    } else {
        let prev = non_parent(hs, i - 1);
        if hs[i - 1] == parent_href() {
            prev
        } else {
            prev.push(hs[i - 1])
        }
    }
}

/// The `href` attributes of the anchor tags of an HTML page, in document
/// order.
pub uninterp spec fn anchor_hrefs_of(html: Seq<char>) -> Seq<Seq<char>>;

/// Relies on select's `Document::from`, `Document::find` with the `Name`
/// predicate, and `Node::attr`: the result holds the `href` attribute of
/// each `<a>` tag of the page, in document order, a function of the text
/// alone.
#[verifier::external_body]
fn collect_anchor_hrefs(html: &str) -> (r: Vec<String>)
    ensures
        r.deep_view() == anchor_hrefs_of(html@),
{
    let document = select::document::Document::from(html);
    let mut out: Vec<String> = Vec::new();
    for node in document.find(select::predicate::Name("a")) {
        if let Some(h) = node.attr("href") {
            out.push(h.to_string());
        }
    }
    out
}

/// Extract one page's anchor hrefs, drop the parent-directory links and
/// classify the rest under the page's own URL.
pub fn extract_links(current_link: &str, html: &str) -> (r: ExtractedLinks)
    ensures
        ({
            let all = anchor_hrefs_of(html@);
            let hs = non_parent(all, all.len() as int);
            r.directories.deep_view() == out_dirs(current_link@, hs, hs.len() as int)
                && r.files.deep_view() == out_files(current_link@, hs, hs.len() as int)
        }),
{
    let collected = collect_anchor_hrefs(html);
    let ghost all = collected.deep_view();
    let mut href: Vec<&str> = Vec::new();
    let mut i: usize = 0;
    proof {
        reveal_strlit("../");
        assert("../"@ =~= parent_href());
    }
    while i < collected.len()
        invariant
            all == collected.deep_view(),
            all.len() == collected@.len(),
            i <= collected@.len(),
            "../"@ == parent_href(),
            href.deep_view() == non_parent(all, i as int),
        decreases collected@.len() - i,
    {
        assert(all[i as int] == collected@[i as int]@);
        let s: &str = collected[i].as_str();
        if !str_eq(s, "../") {
            let ghost prev = href.deep_view();
            href.push(s);
            proof {
                assert(href.deep_view() =~= prev.push(all[i as int]));
            }
        }
        i += 1;
    }
    filter_href(current_link, href)
}

/// The two lists a classified page yields: absolutized subdirectory URLs
/// to crawl further, and absolutized file URLs to download.
#[derive(Debug)]
pub struct ExtractedLinks {
    pub directories: Vec<String>,
    pub files: Vec<String>,
}

impl ExtractedLinks {
    pub fn len(&self) -> (n: usize)
        requires
            self.directories@.len() + self.files@.len() <= usize::MAX,
        ensures
            n == self.directories@.len() + self.files@.len(),
    {
        self.directories.len() + self.files.len()
    }

    pub fn is_empty(&self) -> (r: bool)
        ensures
            r == (self.directories@.len() == 0 && self.files@.len() == 0),
    {
        self.directories.is_empty() && self.files.is_empty()
    }
}

/// The base key of `h`, as a borrowed slice of it.
fn base_key_of<'a>(h: &'a str) -> (r: &'a str)
    ensures
        r@ == base_key(h@),
{
    let n = h.unicode_len();
    if n > 0 && h.get_char(n - 1) == '/' {
        let r = h.substring_char(0, n - 1);
        proof {
            assert(r@ =~= h@.drop_last());
        }
        r
    } else {
        let mut i: usize = n;
        proof {
            assert(h@.subrange(0, n as int) =~= h@);
        }
        while i > 0
            invariant
                n == h@.len(),
                i <= n,
                !is_dir_href(h@),
                last_dot(h@) == last_dot(h@.subrange(0, i as int)),
            decreases i,
        {
            if h.get_char(i - 1) == '.' {
                proof {
                    assert(last_dot(h@.subrange(0, i as int)) == i - 1);
                }
                let r = h.substring_char(0, i - 1);
                return r;
            }
            proof {
                assert(h@.subrange(0, i as int).drop_last() =~= h@.subrange(0, i as int - 1));
            }
            i -= 1;
        }
        proof {
            assert(h@.subrange(0, 0) =~= Seq::<char>::empty());
            assert(last_dot(h@) == -1);
        }
        h
    }
}

/// Whether `h` ends with `.zip`.
pub(crate) fn is_zip_str(h: &str) -> (r: bool)
    ensures
        r == is_zip_href(h@),
{
    let n = h.unicode_len();
    if n < 4 {
        return false;
    }
    let r = h.get_char(n - 4) == '.' && h.get_char(n - 3) == 'z' && h.get_char(n - 2) == 'i'
        && h.get_char(n - 1) == 'p';
    proof {
        let sub = h@.subrange(n - 4, n as int);
        assert(sub[0] == h@[n - 4] && sub[1] == h@[n - 3] && sub[2] == h@[n - 2]
            && sub[3] == h@[n - 1]);
        if r {
            assert(sub =~= zip_suffix());
        } else {
            assert(sub != zip_suffix());
        }
    }
    r
}

/// Whether `p` is exactly `key` followed by `.zip`.
fn eq_key_zip(p: &str, key: &str) -> (r: bool)
    ensures
        r == (p@ == key@ + zip_suffix()),
{
    let np = p.unicode_len();
    let nk = key.unicode_len();
    if np < 4 || np - 4 != nk {
        proof {
            assert(p@ != key@ + zip_suffix()) by {
                assert((key@ + zip_suffix()).len() == nk + 4);
            }
        }
        return false;
    }
    let r = starts_with_str(p, key) && is_zip_str(p);
    proof {
        let target = key@ + zip_suffix();
        if r {
            assert forall|k: int| 0 <= k < np implies p@[k] == target[k] by {
                if k < nk {
                    assert(p@.subrange(0, nk as int)[k] == p@[k]);
                } else {
                    assert(p@.subrange(np - 4, np as int)[k - nk] == p@[k]);
                    assert(target[k] == zip_suffix()[k - nk]);
                }
            }
            assert(p@ =~= target);
        } else {
            if p@ == target {
                assert(p@.subrange(0, nk as int) =~= key@);
                assert(p@.subrange(np - 4, np as int) =~= zip_suffix());
            }
        }
    }
    r
}

/// Whether some href in the list is `key` followed by `.zip`.
fn has_zip_sibling_exec(href: &Vec<&str>, key: &str) -> (r: bool)
    ensures
        r == has_zip_sibling(href.deep_view(), key@),
{
    let ghost hs = href.deep_view();
    let mut j: usize = 0;
    while j < href.len()
        invariant
            hs == href.deep_view(),
            hs.len() == href@.len(),
            j <= href@.len(),
            forall|k: int| 0 <= k < j ==> hs[k] != key@ + zip_suffix(),
        decreases href@.len() - j,
    {
        assert(hs[j as int] == href@[j as int]@);
        if eq_key_zip(href[j], key) {
            return true;
        }
        j += 1;
    }
    false
}

/// The chosen href for `key`, scanning the whole list in order.
fn chosen_of<'a>(href: &Vec<&'a str>, key: &str) -> (r: Option<&'a str>)
    ensures
        match r {
            None => chosen_href(href.deep_view(), key@) is None,
            Some(s) => chosen_href(href.deep_view(), key@) == Some(s@),
        },
{
    let ghost hs = href.deep_view();
    let mut cur: Option<&'a str> = None;
    let mut j: usize = 0;
    while j < href.len()
        invariant
            hs == href.deep_view(),
            hs.len() == href@.len(),
            j <= href@.len(),
            match cur {
                None => chosen_upto(hs, j as int, key@) is None,
                Some(c) => chosen_upto(hs, j as int, key@) == Some(c@),
            },
        decreases href@.len() - j,
    {
        assert(hs[j as int] == href@[j as int]@);
        let h = href[j];
        let b = base_key_of(h);
        if str_eq(b, key) {
            match cur {
                None => {
                    cur = Some(h);
                },
                Some(c) => {
                    if !is_zip_str(c) && is_zip_str(h) {
                        cur = Some(h);
                    }
                },
            }
        }
        j += 1;
    }
    cur
}

/// Together the two outputs never hold more entries than came in.
pub proof fn lemma_out_lens(cur: Seq<char>, hs: Seq<Seq<char>>, i: int)
    requires
        0 <= i <= hs.len(),
    ensures
        out_dirs(cur, hs, i).len() + out_files(cur, hs, i).len() <= i,
    decreases i,
{
    if i > 0 {
        lemma_out_lens(cur, hs, i - 1);
    }
}

/// Classify one page's hrefs under the current directory URL.
///
/// The result lists are exactly the survivors of the base-key grouping
/// with archive preference, absolutized with the single-slash join rule
/// and split by trailing slash, in input order.
pub fn filter_href(current_link: &str, href: Vec<&str>) -> (r: ExtractedLinks)
    ensures
        r.directories.deep_view() == out_dirs(
            current_link@,
            href.deep_view(),
            href.deep_view().len() as int,
        ),
        r.files.deep_view() == out_files(
            current_link@,
            href.deep_view(),
            href.deep_view().len() as int,
        ),
        r.directories@.len() + r.files@.len() <= href@.len(),
{
    proof {
        lemma_out_lens(current_link@, href.deep_view(), href.deep_view().len() as int);
    }
    let ghost hs = href.deep_view();
    let ghost cur = current_link@;
    let mut dirs: Vec<String> = Vec::new();
    let mut files: Vec<String> = Vec::new();
    let mut i: usize = 0;
    while i < href.len()
        invariant
            hs == href.deep_view(),
            hs.len() == href@.len(),
            i <= href@.len(),
            cur == current_link@,
            dirs.deep_view() == out_dirs(cur, hs, i as int),
            files.deep_view() == out_files(cur, hs, i as int),
        decreases href@.len() - i,
    {
        assert(hs[i as int] == href@[i as int]@);
        let h = href[i];
        let key = base_key_of(h);
        let zip_sib = has_zip_sibling_exec(&href, key);
        let h_dir = ends_with_chr(h, '/');
        let h_zip = is_zip_str(h);
        let mut keep = true;
        if h_dir && zip_sib {
            keep = false;
        }
        if !h_dir && !h_zip && zip_sib {
            keep = false;
        }
        if keep {
            match chosen_of(&href, key) {
                Some(c) => {
                    if !str_eq(c, h) {
                        keep = false;
                    }
                },
                None => {
                    keep = false;
                },
            }
        }
        assert(keep == keeps(hs, hs[i as int]));
        if keep {
            let joined = handle_slashes(current_link, h);
            if ends_with_chr(joined.as_str(), '/') {
                let ghost old_dirs = dirs.deep_view();
                dirs.push(joined);
                proof {
                    assert(dirs.deep_view() =~= old_dirs.push(spec_join(cur, hs[i as int])));
                }
            } else {
                let ghost old_files = files.deep_view();
                files.push(joined);
                proof {
                    assert(files.deep_view() =~= old_files.push(spec_join(cur, hs[i as int])));
                }
            }
        }
        i += 1;
    }
    ExtractedLinks { directories: dirs, files }
}

} // verus!
