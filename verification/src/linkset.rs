//! The flat-list zip filter.
//!
//! An earlier stage of the pipeline collects every crawled link into one
//! flat list.  `parse` keeps all archive links and every non-archive
//! link whose extension-stripped path is not covered by an archive; a
//! path is covered when some archive's stripped path is a prefix of it.

use vstd::prelude::*;
use vstd::string::*;
use crate::strutil::{has_prefix, starts_with_str, str_eq};
use crate::parser::{is_zip_href, is_zip_str, last_dot, lemma_last_dot_range};

verus! {

/// `full` with the prefix `web` removed when it is present.
pub open spec fn strip_prefix_or_self(full: Seq<char>, web: Seq<char>) -> Seq<char> {
    if has_prefix(full, web) {
        full.subrange(web.len() as int, full.len() as int)
    } else {
        full
    }
}

/// The extension-stripped path of a link: the site prefix is removed,
/// then the text from the last `.` on; a link without a `.` has none.
pub open spec fn spec_suffix(web: Seq<char>, full: Seq<char>) -> Option<Seq<char>> {
    let path = strip_prefix_or_self(full, web);
    if last_dot(path) >= 0 {
        Some(path.subrange(0, last_dot(path)))
    } else {
        None
    }
}

/// Index of the last `.` of `s`, if any.
fn rfind_dot(s: &str) -> (r: Option<usize>)
    ensures
        match r {
            Some(i) => last_dot(s@) == i,
            None => last_dot(s@) == -1,
        },
{
    let n = s.unicode_len();
    let mut i: usize = n;
    proof {
        assert(s@.subrange(0, n as int) =~= s@);
    }
    while i > 0
        invariant
            n == s@.len(),
            i <= n,
            last_dot(s@) == last_dot(s@.subrange(0, i as int)),
        decreases i,
    {
        if s.get_char(i - 1) == '.' {
            proof {
                assert(last_dot(s@.subrange(0, i as int)) == i - 1);
            }
            return Some(i - 1);
        }
        proof {
            assert(s@.subrange(0, i as int).drop_last() =~= s@.subrange(0, i as int - 1));
        }
        i -= 1;
    }
    proof {
        assert(s@.subrange(0, 0) =~= Seq::<char>::empty());
    }
    None
}

/// Strip the site prefix and the extension from a full link.
pub fn suffix(website_url: &str, full_path: &str) -> (r: Option<String>)
    ensures
        match r {
            Some(s) => spec_suffix(website_url@, full_path@) == Some(s@),
            None => spec_suffix(website_url@, full_path@) is None,
        },
{
    let path: &str = if starts_with_str(full_path, website_url) {
        let p = full_path.substring_char(website_url.unicode_len(), full_path.unicode_len());
        proof {
            assert(p@ =~= strip_prefix_or_self(full_path@, website_url@));
        }
        p
    } else {
        full_path
    };
    match rfind_dot(path) {
        Some(i) => {
            proof {
                lemma_last_dot_range(path@);
            }
            Some(String::from_str(path.substring_char(0, i)))
        },
        None => None,
    }
}

/// Some archive path in `zips` is a prefix of `path`.
pub open spec fn covered(zips: Seq<Seq<char>>, path: Seq<char>) -> bool {
    exists|j: int| 0 <= j < zips.len() && has_prefix(path, zips[j])
}

/// Whether the path lies under one of the archives' stripped paths.
pub fn file_is_part_of_zip(path: &str, map: &Vec<String>) -> (r: bool)
    ensures
        r == covered(map.deep_view(), path@),
{
    let ghost zs = map.deep_view();
    let mut j: usize = 0;
    while j < map.len()
        invariant
            zs == map.deep_view(),
            zs.len() == map@.len(),
            j <= map@.len(),
            forall|k: int| 0 <= k < j ==> !has_prefix(path@, zs[k]),
        decreases map@.len() - j,
    {
        assert(zs[j as int] == map@[j as int]@);
        if starts_with_str(path, map[j].as_str()) {
            return true;
        }
        j += 1;
    }
    false
}

/// The unique position of `k` in a duplicate-free key list.
pub open spec fn idx_of(ks: Seq<Seq<char>>, k: Seq<char>) -> int {
    choose|i: int| 0 <= i < ks.len() && ks[i] == k
}

/// One step of the first pass: the accumulated state is the list of
/// archive links already emitted, their stripped paths, and the
/// insertion-ordered key/value lists of the non-archive links (a later
/// link with an already-seen stripped path replaces the stored one).
pub open spec fn parse_state(ls: Seq<Seq<char>>, web: Seq<char>, i: int) -> (
    Seq<Seq<char>>,
    Seq<Seq<char>>,
    Seq<Seq<char>>,
    Seq<Seq<char>>,
)
    decreases i,
{
    if i <= 0 {
        (Seq::empty(), Seq::empty(), Seq::empty(), Seq::empty())
    } else {
        let (res, zips, ks, vs) = parse_state(ls, web, i - 1);
        let l = ls[i - 1];
        match spec_suffix(web, l) {
            Some(clean) => {
                if is_zip_href(l) {
                    (res.push(l), zips.push(clean), ks, vs)
                } else if ks.contains(clean) {
                    (res, zips, ks, vs.update(idx_of(ks, clean), l))
                } else {
                    (res, zips, ks.push(clean), vs.push(l))
                }
            },
            None => (res, zips, ks, vs),
        }
    }
}

/// The second pass emits, in insertion order, the stored non-archive
/// links whose stripped path no archive covers.
pub open spec fn second_pass(
    ks: Seq<Seq<char>>,
    vs: Seq<Seq<char>>,
    zips: Seq<Seq<char>>,
    k: int,
) -> Seq<Seq<char>>
    decreases k,
{
    if k <= 0 {
        Seq::empty()
    } else {
        let prev = second_pass(ks, vs, zips, k - 1);
        if !covered(zips, ks[k - 1]) {
            prev.push(vs[k - 1])
        } else {
            prev
        }
    }
}

/// The whole filter: archives first, surviving non-archives after.
pub open spec fn spec_parse(ls: Seq<Seq<char>>, web: Seq<char>) -> Seq<Seq<char>> {
    let (res, zips, ks, vs) = parse_state(ls, web, ls.len() as int);
    res + second_pass(ks, vs, zips, ks.len() as int)
}

/// Position of the first key equal to `k`, if any.
fn find_key(ks: &Vec<String>, k: &str) -> (r: Option<usize>)
    ensures
        match r {
            Some(i) => i < ks.deep_view().len() && ks.deep_view()[i as int] == k@,
            None => !ks.deep_view().contains(k@),
        },
{
    let ghost kv = ks.deep_view();
    let mut j: usize = 0;
    while j < ks.len()
        invariant
            kv == ks.deep_view(),
            kv.len() == ks@.len(),
            j <= ks@.len(),
            forall|a: int| 0 <= a < j ==> kv[a] != k@,
        decreases ks@.len() - j,
    {
        assert(kv[j as int] == ks@[j as int]@);
        if str_eq(ks[j].as_str(), k) {
            return Some(j);
        }
        j += 1;
    }
    assert(!kv.contains(k@));
    None
}

/// Filter a flat list of crawled links: keep archives, drop everything
/// an archive covers.  Links are processed in input order.
pub fn parse(links: Vec<String>, website_url: &str) -> (r: Vec<String>)
    ensures
        r.deep_view() == spec_parse(links.deep_view(), website_url@),
{
    let ghost ls = links.deep_view();
    let ghost web = website_url@;
    let mut results: Vec<String> = Vec::new();
    let mut zips: Vec<String> = Vec::new();
    let mut nz_keys: Vec<String> = Vec::new();
    let mut nz_vals: Vec<String> = Vec::new();
    proof {
        assert(results.deep_view() =~= Seq::<Seq<char>>::empty());
        assert(zips.deep_view() =~= Seq::<Seq<char>>::empty());
        assert(nz_keys.deep_view() =~= Seq::<Seq<char>>::empty());
        assert(nz_vals.deep_view() =~= Seq::<Seq<char>>::empty());
    }
    let mut i: usize = 0;
    while i < links.len()
        invariant
            ls == links.deep_view(),
            ls.len() == links@.len(),
            i <= links@.len(),
            web == website_url@,
            parse_state(ls, web, i as int) == (
                results.deep_view(),
                zips.deep_view(),
                nz_keys.deep_view(),
                nz_vals.deep_view(),
            ),
            nz_keys@.len() == nz_vals@.len(),
            forall|a: int, b: int|
                0 <= a < b < nz_keys.deep_view().len() ==> nz_keys.deep_view()[a]
                    != nz_keys.deep_view()[b],
        decreases links@.len() - i,
    {
        assert(ls[i as int] == links@[i as int]@);
        let l: &str = links[i].as_str();
        match suffix(website_url, l) {
            Some(clean) => {
                let ghost cv = clean@;
                if is_zip_str(l) {
                    let ghost prev_r = results.deep_view();
                    let ghost prev_z = zips.deep_view();
                    zips.push(clean);
                    results.push(links[i].clone());
                    proof {
                        assert(results.deep_view() =~= prev_r.push(ls[i as int]));
                        assert(zips.deep_view() =~= prev_z.push(cv));
                    }
                } else {
                    let ghost ks = nz_keys.deep_view();
                    match find_key(&nz_keys, clean.as_str()) {
                        Some(j) => {
                            proof {
                                assert(ks.contains(cv));
                                let w = idx_of(ks, cv);
                                assert(0 <= w < ks.len() && ks[w] == cv);
                                assert(w == j);
                            }
                            let ghost prev_v = nz_vals.deep_view();
                            nz_vals.set(j, links[i].clone());
                            proof {
                                assert(nz_vals.deep_view() =~= prev_v.update(
                                    j as int,
                                    ls[i as int],
                                ));
                            }
                        },
                        None => {
                            let ghost prev_k = nz_keys.deep_view();
                            let ghost prev_v = nz_vals.deep_view();
                            nz_keys.push(clean);
                            nz_vals.push(links[i].clone());
                            proof {
                                assert(nz_keys.deep_view() =~= prev_k.push(cv));
                                assert(nz_vals.deep_view() =~= prev_v.push(ls[i as int]));
                            }
                        },
                    }
                }
            },
            None => {},
        }
        i += 1;
    }
    let ghost st = parse_state(ls, web, ls.len() as int);
    let ghost ks = nz_keys.deep_view();
    let ghost vs = nz_vals.deep_view();
    proof {
        assert(st.0 + second_pass(ks, vs, st.1, 0) =~= st.0);
    }
    let mut k: usize = 0;
    while k < nz_keys.len()
        invariant
            ks == nz_keys.deep_view(),
            vs == nz_vals.deep_view(),
            ks.len() == nz_keys@.len(),
            vs.len() == nz_vals@.len(),
            ks.len() == vs.len(),
            k <= ks.len(),
            zips.deep_view() == st.1,
            ks == st.2,
            vs == st.3,
            results.deep_view() == st.0 + second_pass(ks, vs, st.1, k as int),
        decreases ks.len() - k,
    {
        assert(ks[k as int] == nz_keys@[k as int]@);
        assert(vs[k as int] == nz_vals@[k as int]@);
        if !file_is_part_of_zip(nz_keys[k].as_str(), &zips) {
            let ghost prev_r = results.deep_view();
            results.push(nz_vals[k].clone());
            proof {
                assert(results.deep_view() =~= prev_r.push(vs[k as int]));
                assert(st.0 + second_pass(ks, vs, st.1, k as int).push(vs[k as int]) =~= (st.0
                    + second_pass(ks, vs, st.1, k as int)).push(vs[k as int]));
            }
        }
        k += 1;
    }
    results
}

} // verus!
