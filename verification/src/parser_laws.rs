//! Proved laws of the link classifier.

use vstd::prelude::*;
use vstd::set_lib::lemma_len_subset;
use crate::strutil::{ends_with_char, starts_with_char};
use crate::urljoin::spec_join;
use crate::parser::{
    base_key, chosen_href, chosen_upto, has_zip_sibling, is_dir_href, is_zip_href, keeps,
    last_dot, out_dirs, out_files, zip_suffix,
};

verus! {

/// No href occurs twice in the list.
pub open spec fn distinct_hrefs(hs: Seq<Seq<char>>) -> bool {
    forall|a: int, b: int| 0 <= a < b < hs.len() ==> hs[a] != hs[b]
}

/// No two hrefs of the list share a base key.
pub open spec fn distinct_keys(hs: Seq<Seq<char>>) -> bool {
    forall|a: int, b: int| 0 <= a < b < hs.len() ==> base_key(hs[a]) != base_key(hs[b])
}

/// The distinct base keys among the first `i` hrefs.
pub open spec fn keys_upto(hs: Seq<Seq<char>>, i: int) -> Set<Seq<char>> {
    Set::new(|k: Seq<char>| exists|j: int| 0 <= j < i && base_key(hs[j]) == k)
}

/// The distinct base keys of the whole list.
pub open spec fn base_key_set(hs: Seq<Seq<char>>) -> Set<Seq<char>> {
    keys_upto(hs, hs.len() as int)
}

/// The base keys of the surviving hrefs among the first `i`.
pub open spec fn kept_keys_upto(hs: Seq<Seq<char>>, i: int) -> Set<Seq<char>> {
    Set::new(
        |k: Seq<char>|
            exists|j: int| 0 <= j < i && keeps(hs, hs[j]) && base_key(hs[j]) == k,
    )
}

proof fn lemma_keys_upto_finite(hs: Seq<Seq<char>>, i: int)
    requires
        0 <= i <= hs.len(),
    ensures
        keys_upto(hs, i).finite(),
        keys_upto(hs, i).len() <= i,
    decreases i,
{
    broadcast use vstd::set::axiom_set_insert_len;

    if i == 0 {
        assert(keys_upto(hs, 0) =~= Set::empty());
    } else {
        lemma_keys_upto_finite(hs, i - 1);
        assert(keys_upto(hs, i) =~= keys_upto(hs, i - 1).insert(base_key(hs[i - 1])));
    }
}

proof fn lemma_kept_count(cur: Seq<char>, hs: Seq<Seq<char>>, i: int)
    requires
        distinct_hrefs(hs),
        0 <= i <= hs.len(),
    ensures
        kept_keys_upto(hs, i).finite(),
        out_dirs(cur, hs, i).len() + out_files(cur, hs, i).len() == kept_keys_upto(hs, i).len(),
    decreases i,
{
    broadcast use vstd::set::axiom_set_insert_len;

    if i == 0 {
        assert(kept_keys_upto(hs, 0) =~= Set::empty());
    } else {
        lemma_kept_count(cur, hs, i - 1);
        let h = hs[i - 1];
        if keeps(hs, h) {
            assert(!kept_keys_upto(hs, i - 1).contains(base_key(h))) by {
                if kept_keys_upto(hs, i - 1).contains(base_key(h)) {
                    let j = choose|j: int|
                        0 <= j < i - 1 && keeps(hs, hs[j]) && base_key(hs[j]) == base_key(h);
                    assert(chosen_href(hs, base_key(h)) == Some(hs[j]));
                    assert(chosen_href(hs, base_key(h)) == Some(h));
                    assert(hs[j] == h);
                }
            }
            assert(kept_keys_upto(hs, i) =~= kept_keys_upto(hs, i - 1).insert(base_key(h)));
        } else {
            assert(kept_keys_upto(hs, i) =~= kept_keys_upto(hs, i - 1));
        }
    }
}

proof fn lemma_out_shape(cur: Seq<char>, hs: Seq<Seq<char>>, i: int)
    requires
        0 <= i <= hs.len(),
    ensures
        forall|a: int|
            0 <= a < out_dirs(cur, hs, i).len() ==> is_dir_href(#[trigger] out_dirs(cur, hs, i)[a]),
        forall|b: int|
            0 <= b < out_files(cur, hs, i).len() ==> !is_dir_href(
                #[trigger] out_files(cur, hs, i)[b],
            ),
    decreases i,
{
    if i > 0 {
        lemma_out_shape(cur, hs, i - 1);
        let pd = out_dirs(cur, hs, i - 1);
        let pf = out_files(cur, hs, i - 1);
        let joined = spec_join(cur, hs[i - 1]);
        assert forall|a: int| 0 <= a < out_dirs(cur, hs, i).len() implies is_dir_href(
            out_dirs(cur, hs, i)[a],
        ) by {
            if keeps(hs, hs[i - 1]) && is_dir_href(joined) {
                if a < pd.len() {
                    assert(out_dirs(cur, hs, i)[a] == pd[a]);
                } else {
                    assert(out_dirs(cur, hs, i)[a] == joined);
                }
            } else {
                assert(out_dirs(cur, hs, i)[a] == pd[a]);
            }
        }
        assert forall|b: int| 0 <= b < out_files(cur, hs, i).len() implies !is_dir_href(
            out_files(cur, hs, i)[b],
        ) by {
            if keeps(hs, hs[i - 1]) && !is_dir_href(joined) {
                if b < pf.len() {
                    assert(out_files(cur, hs, i)[b] == pf[b]);
                } else {
                    assert(out_files(cur, hs, i)[b] == joined);
                }
            } else {
                assert(out_files(cur, hs, i)[b] == pf[b]);
            }
        }
    }
}

/// Law: for any href list without repeated entries, the classifier's
/// directory output and file output are disjoint — every directory URL
/// ends with `/`, no file URL does — and together they never hold more
/// entries than there are distinct base keys among the input hrefs.
pub proof fn lemma_classifier_disjoint_and_bounded(cur: Seq<char>, hs: Seq<Seq<char>>)
    requires
        distinct_hrefs(hs),
    ensures
        ({
            let dirs = out_dirs(cur, hs, hs.len() as int);
            let files = out_files(cur, hs, hs.len() as int);
            &&& forall|a: int| 0 <= a < dirs.len() ==> is_dir_href(#[trigger] dirs[a])
            &&& forall|b: int| 0 <= b < files.len() ==> !is_dir_href(#[trigger] files[b])
            &&& forall|a: int, b: int|
                0 <= a < dirs.len() && 0 <= b < files.len() ==> dirs[a] != files[b]
            &&& dirs.len() + files.len() <= base_key_set(hs).len()
        }),
{
    let n = hs.len() as int;
    lemma_out_shape(cur, hs, n);
    lemma_kept_count(cur, hs, n);
    lemma_keys_upto_finite(hs, n);
    assert(kept_keys_upto(hs, n).subset_of(base_key_set(hs))) by {
        assert forall|k: Seq<char>| kept_keys_upto(hs, n).contains(k) implies base_key_set(
            hs,
        ).contains(k) by {
            let j = choose|j: int| 0 <= j < n && keeps(hs, hs[j]) && base_key(hs[j]) == k;
            assert(0 <= j < n && base_key(hs[j]) == k);
        }
    }
    lemma_len_subset(kept_keys_upto(hs, n), base_key_set(hs));
}

/// Every href of the list starts with `/`, as the classifier's own
/// output does when the crawl was seeded with server-absolute paths.
pub open spec fn all_rooted(hs: Seq<Seq<char>>) -> bool {
    forall|j: int| 0 <= j < hs.len() ==> starts_with_char(#[trigger] hs[j], '/')
}

/// The hrefs among the first `i` that end with a slash, in order.
pub open spec fn only_dirs(hs: Seq<Seq<char>>, i: int) -> Seq<Seq<char>>
    decreases i,
{
    if i <= 0 {
        Seq::empty()
    } else {
        let prev = only_dirs(hs, i - 1);
        if is_dir_href(hs[i - 1]) {
            prev.push(hs[i - 1])
        } else {
            prev
        }
    }
}

/// The hrefs among the first `i` that do not end with a slash, in order.
pub open spec fn only_files(hs: Seq<Seq<char>>, i: int) -> Seq<Seq<char>>
    decreases i,
{
    if i <= 0 {
        Seq::empty()
    } else {
        let prev = only_files(hs, i - 1);
        if !is_dir_href(hs[i - 1]) {
            prev.push(hs[i - 1])
        } else {
            prev
        }
    }
}

proof fn lemma_base_key_of_zip(key: Seq<char>)
    ensures
        base_key(key + zip_suffix()) == key,
        is_zip_href(key + zip_suffix()),
        !is_dir_href(key + zip_suffix()),
{
    let s = key + zip_suffix();
    assert(s[s.len() - 1] == 'p');
    assert(s.subrange(s.len() - 4, s.len() as int) =~= zip_suffix());
    let s3 = s.drop_last();
    assert(s3 =~= key + seq!['.', 'z', 'i']);
    let s2 = s3.drop_last();
    assert(s2 =~= key + seq!['.', 'z']);
    let s1 = s2.drop_last();
    assert(s1 =~= key + seq!['.']);
    assert(s1[s1.len() - 1] == '.');
    assert(last_dot(s1) == key.len());
    assert(s2[s2.len() - 1] == 'z');
    assert(last_dot(s2) == last_dot(s1));
    assert(s3[s3.len() - 1] == 'i');
    assert(last_dot(s3) == last_dot(s2));
    assert(last_dot(s) == last_dot(s3));
    assert(base_key(s) =~= key);
}

proof fn lemma_chosen_unique(hs: Seq<Seq<char>>, j: int, i: int)
    requires
        distinct_keys(hs),
        0 <= j < hs.len(),
        0 <= i <= hs.len(),
    ensures
        i <= j ==> chosen_upto(hs, i, base_key(hs[j])) is None,
        i > j ==> chosen_upto(hs, i, base_key(hs[j])) == Some(hs[j]),
    decreases i,
{
    if i > 0 {
        lemma_chosen_unique(hs, j, i - 1);
        if i - 1 != j {
            if i - 1 < j {
                assert(base_key(hs[i - 1]) != base_key(hs[j]));
            } else {
                assert(base_key(hs[j]) != base_key(hs[i - 1]));
            }
        }
    }
}

proof fn lemma_all_kept(hs: Seq<Seq<char>>, j: int)
    requires
        distinct_keys(hs),
        0 <= j < hs.len(),
    ensures
        keeps(hs, hs[j]),
{
    let h = hs[j];
    let key = base_key(h);
    lemma_chosen_unique(hs, j, hs.len() as int);
    if has_zip_sibling(hs, key) {
        let m = choose|m: int| 0 <= m < hs.len() && hs[m] == key + zip_suffix();
        lemma_base_key_of_zip(key);
        if m != j {
            if m < j {
                assert(base_key(hs[m]) != base_key(hs[j]));
            } else {
                assert(base_key(hs[j]) != base_key(hs[m]));
            }
            assert(false);
        }
        assert(is_zip_href(h) && !is_dir_href(h));
    }
}

proof fn lemma_join_empty(h: Seq<char>)
    requires
        starts_with_char(h, '/'),
    ensures
        spec_join(Seq::empty(), h) == h,
{
    assert(!ends_with_char(Seq::<char>::empty(), '/'));
    assert(Seq::<char>::empty() + h =~= h);
}

proof fn lemma_no_collisions_upto(hs: Seq<Seq<char>>, i: int)
    requires
        distinct_keys(hs),
        all_rooted(hs),
        0 <= i <= hs.len(),
    ensures
        out_dirs(Seq::empty(), hs, i) == only_dirs(hs, i),
        out_files(Seq::empty(), hs, i) == only_files(hs, i),
    decreases i,
{
    if i > 0 {
        lemma_no_collisions_upto(hs, i - 1);
        lemma_all_kept(hs, i - 1);
        lemma_join_empty(hs[i - 1]);
    }
}

/// Law: on an href list whose entries all start with `/` and carry
/// pairwise-distinct base keys — as the classifier's own output does
/// once same-base collisions are resolved — classification under the
/// empty current URL keeps every href unchanged and merely splits the
/// list by trailing slash.
pub proof fn lemma_classify_no_collisions(hs: Seq<Seq<char>>)
    requires
        distinct_keys(hs),
        all_rooted(hs),
    ensures
        out_dirs(Seq::empty(), hs, hs.len() as int) == only_dirs(hs, hs.len() as int),
        out_files(Seq::empty(), hs, hs.len() as int) == only_files(hs, hs.len() as int),
{
    lemma_no_collisions_upto(hs, hs.len() as int);
}

proof fn lemma_only_membership(hs: Seq<Seq<char>>, i: int)
    requires
        0 <= i <= hs.len(),
    ensures
        forall|k: int|
            0 <= k < only_dirs(hs, i).len() ==> is_dir_href(#[trigger] only_dirs(hs, i)[k])
                && (exists|j: int| 0 <= j < i && hs[j] == only_dirs(hs, i)[k]),
        forall|k: int|
            0 <= k < only_files(hs, i).len() ==> !is_dir_href(#[trigger] only_files(hs, i)[k])
                && (exists|j: int| 0 <= j < i && hs[j] == only_files(hs, i)[k]),
    decreases i,
{
    if i > 0 {
        lemma_only_membership(hs, i - 1);
        let pd = only_dirs(hs, i - 1);
        let pf = only_files(hs, i - 1);
        assert forall|k: int| 0 <= k < only_dirs(hs, i).len() implies is_dir_href(
            only_dirs(hs, i)[k],
        ) && (exists|j: int| 0 <= j < i && hs[j] == only_dirs(hs, i)[k]) by {
            if is_dir_href(hs[i - 1]) && k == pd.len() {
                assert(only_dirs(hs, i)[k] == hs[i - 1]);
            } else {
                assert(only_dirs(hs, i)[k] == pd[k]);
                let j = choose|j: int| 0 <= j < i - 1 && hs[j] == pd[k];
                assert(0 <= j < i && hs[j] == only_dirs(hs, i)[k]);
            }
        }
        assert forall|k: int| 0 <= k < only_files(hs, i).len() implies !is_dir_href(
            only_files(hs, i)[k],
        ) && (exists|j: int| 0 <= j < i && hs[j] == only_files(hs, i)[k]) by {
            if !is_dir_href(hs[i - 1]) && k == pf.len() {
                assert(only_files(hs, i)[k] == hs[i - 1]);
            } else {
                assert(only_files(hs, i)[k] == pf[k]);
                let j = choose|j: int| 0 <= j < i - 1 && hs[j] == pf[k];
                assert(0 <= j < i && hs[j] == only_files(hs, i)[k]);
            }
        }
    }
}

proof fn lemma_only_agree_prefix(xs: Seq<Seq<char>>, ys: Seq<Seq<char>>, i: int)
    requires
        0 <= i <= xs.len(),
    ensures
        only_dirs(xs + ys, i) == only_dirs(xs, i),
        only_files(xs + ys, i) == only_files(xs, i),
    decreases i,
{
    if i > 0 {
        lemma_only_agree_prefix(xs, ys, i - 1);
        assert((xs + ys)[i - 1] == xs[i - 1]);
    }
}

proof fn lemma_only_concat(xs: Seq<Seq<char>>, ys: Seq<Seq<char>>, k: int)
    requires
        0 <= k <= ys.len(),
    ensures
        only_dirs(xs + ys, xs.len() + k) == only_dirs(xs, xs.len() as int) + only_dirs(ys, k),
        only_files(xs + ys, xs.len() + k) == only_files(xs, xs.len() as int) + only_files(ys, k),
    decreases k,
{
    if k == 0 {
        lemma_only_agree_prefix(xs, ys, xs.len() as int);
        assert(only_dirs(xs, xs.len() as int) + only_dirs(ys, 0) =~= only_dirs(
            xs,
            xs.len() as int,
        ));
        assert(only_files(xs, xs.len() as int) + only_files(ys, 0) =~= only_files(
            xs,
            xs.len() as int,
        ));
    } else {
        lemma_only_concat(xs, ys, k - 1);
        assert((xs + ys)[xs.len() + k - 1] == ys[k - 1]);
        if is_dir_href(ys[k - 1]) {
            assert(only_dirs(xs, xs.len() as int) + only_dirs(ys, k - 1).push(ys[k - 1]) =~= (
            only_dirs(xs, xs.len() as int) + only_dirs(ys, k - 1)).push(ys[k - 1]));
        } else {
            assert(only_files(xs, xs.len() as int) + only_files(ys, k - 1).push(ys[k - 1]) =~= (
            only_files(xs, xs.len() as int) + only_files(ys, k - 1)).push(ys[k - 1]));
        }
    }
}

proof fn lemma_only_id(xs: Seq<Seq<char>>, i: int)
    requires
        0 <= i <= xs.len(),
    ensures
        (forall|k: int| 0 <= k < i ==> is_dir_href(#[trigger] xs[k])) ==> only_dirs(xs, i)
            == xs.subrange(0, i) && only_files(xs, i) == Seq::<Seq<char>>::empty(),
        (forall|k: int| 0 <= k < i ==> !is_dir_href(#[trigger] xs[k])) ==> only_files(xs, i)
            == xs.subrange(0, i) && only_dirs(xs, i) == Seq::<Seq<char>>::empty(),
    decreases i,
{
    if i == 0 {
        assert(xs.subrange(0, 0) =~= Seq::<Seq<char>>::empty());
    } else {
        lemma_only_id(xs, i - 1);
        assert(xs.subrange(0, i - 1).push(xs[i - 1]) =~= xs.subrange(0, i));
    }
}

/// Law: re-running classification on exactly the classifier's own
/// output — the directory list followed by the file list, treated as a
/// fresh href list — returns that same output unchanged, provided the
/// input list had pairwise-distinct base keys and server-absolute
/// (slash-rooted) hrefs, so that absolutization under the empty current
/// URL is the identity.
pub proof fn lemma_classify_idempotent(hs: Seq<Seq<char>>)
    requires
        distinct_keys(hs),
        all_rooted(hs),
    ensures
        ({
            let n = hs.len() as int;
            let d = out_dirs(Seq::empty(), hs, n);
            let f = out_files(Seq::empty(), hs, n);
            let again = d + f;
            let m = again.len() as int;
            out_dirs(Seq::empty(), again, m) == d && out_files(Seq::empty(), again, m) == f
        }),
{
    let n = hs.len() as int;
    lemma_classify_no_collisions(hs);
    let d = only_dirs(hs, n);
    let f = only_files(hs, n);
    let again = d + f;
    lemma_only_membership(hs, n);
    // the combined output still has pairwise-distinct base keys and
    // slash-rooted entries: each entry is an input href, dirs and files
    // never coincide, and within each list repeats would force two
    // input positions with equal base keys
    assert forall|a: int| 0 <= a < again.len() implies starts_with_char(again[a], '/') by {
        if a < d.len() {
            let j = choose|j: int| 0 <= j < n && hs[j] == d[a];
            assert(starts_with_char(hs[j], '/'));
        } else {
            let j = choose|j: int| 0 <= j < n && hs[j] == f[a - d.len()];
            assert(starts_with_char(hs[j], '/'));
        }
    }
    assert forall|a: int, b: int| 0 <= a < b < again.len() implies base_key(again[a]) != base_key(
        again[b],
    ) by {
        let xa = again[a];
        let xb = again[b];
        if a < d.len() {
            assert(xa == d[a]);
        } else {
            assert(xa == f[a - d.len()]);
        }
        if b < d.len() {
            assert(xb == d[b]);
        } else {
            assert(xb == f[b - d.len()]);
        }
        let p = choose|p: int| 0 <= p < n && hs[p] == xa;
        let q = choose|q: int| 0 <= q < n && hs[q] == xb;
        if p == q {
            // then xa == xb: both a dir and a file, or a repeat inside
            // one list, which distinct keys of the input rule out
            assert(xa == xb);
            if a < d.len() && b >= d.len() {
                assert(is_dir_href(xa) && !is_dir_href(xb));
            } else if a < d.len() && b < d.len() {
                assert(false) by {
                    lemma_only_nodup_pair(hs, n, a, b, true);
                }
            } else {
                assert(false) by {
                    lemma_only_nodup_pair(hs, n, a - d.len(), b - d.len(), false);
                }
            }
        } else if p < q {
            assert(base_key(hs[p]) != base_key(hs[q]));
        } else {
            assert(base_key(hs[q]) != base_key(hs[p]));
        }
    }
    lemma_classify_no_collisions(again);
    lemma_only_concat(d, f, f.len() as int);
    lemma_only_id(d, d.len() as int);
    lemma_only_id(f, f.len() as int);
    assert(d.subrange(0, d.len() as int) =~= d);
    assert(f.subrange(0, f.len() as int) =~= f);
    assert(d + Seq::<Seq<char>>::empty() =~= d);
    assert(Seq::<Seq<char>>::empty() + f =~= f);
}

/// Two distinct positions of `only_dirs` (or of `only_files`, when
/// `in_dirs` is false) never hold the same href, when no two input
/// hrefs share a base key.
proof fn lemma_only_nodup_pair(hs: Seq<Seq<char>>, i: int, a: int, b: int, in_dirs: bool)
    requires
        distinct_keys(hs),
        0 <= i <= hs.len(),
        in_dirs ==> 0 <= a < b < only_dirs(hs, i).len(),
        !in_dirs ==> 0 <= a < b < only_files(hs, i).len(),
    ensures
        in_dirs ==> only_dirs(hs, i)[a] != only_dirs(hs, i)[b],
        !in_dirs ==> only_files(hs, i)[a] != only_files(hs, i)[b],
    decreases i,
{
    if i > 0 {
        let pd = only_dirs(hs, i - 1);
        let pf = only_files(hs, i - 1);
        lemma_only_membership(hs, i - 1);
        if in_dirs {
            if is_dir_href(hs[i - 1]) && b == pd.len() {
                // the new entry equals an older one only if two input
                // positions share a base key
                assert(only_dirs(hs, i)[a] == pd[a]);
                let j = choose|j: int| 0 <= j < i - 1 && hs[j] == pd[a];
                if pd[a] == hs[i - 1] {
                    assert(base_key(hs[j]) != base_key(hs[i - 1]));
                }
            } else {
                assert(only_dirs(hs, i)[a] == pd[a] && only_dirs(hs, i)[b] == pd[b]);
                lemma_only_nodup_pair(hs, i - 1, a, b, true);
            }
        } else {
            if !is_dir_href(hs[i - 1]) && b == pf.len() {
                assert(only_files(hs, i)[a] == pf[a]);
                let j = choose|j: int| 0 <= j < i - 1 && hs[j] == pf[a];
                if pf[a] == hs[i - 1] {
                    assert(base_key(hs[j]) != base_key(hs[i - 1]));
                }
            } else {
                assert(only_files(hs, i)[a] == pf[a] && only_files(hs, i)[b] == pf[b]);
                lemma_only_nodup_pair(hs, i - 1, a, b, false);
            }
        }
    }
}

} // verus!
