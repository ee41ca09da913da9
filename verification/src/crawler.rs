//! The crawl coordinator's state: the visited registry, the frontier
//! of pending directory URLs, and the result set of discovered files.
//!
//! The caller owns the rounds: it drains a bounded batch with
//! `next_batch` — which claims every drained URL in the visited
//! registry — fetches and classifies each claimed page, and hands each
//! page's links back through `record_page`.  The registry only grows
//! and a URL is claimed at most once, so no URL is ever fetched twice.

use vstd::prelude::*;
use vstd::string::*;
use crate::parser::ExtractedLinks;
use crate::strutil::str_eq;
use crate::urljoin::{handle_slashes, spec_join};

verus! {

/// The coordinator's shared state.
pub struct Crawler {
    /// URLs claimed for fetching; never shrinks.
    pub visited: Vec<String>,
    /// Pending directory URLs, drained from the back in batches.
    pub frontier: Vec<String>,
    /// Discovered file and archive URLs.
    pub results: Vec<String>,
}

/// Whether some string of `vs` reads `u`.
pub open spec fn has_url(vs: Seq<Seq<char>>, u: Seq<char>) -> bool {
    exists|j: int| 0 <= j < vs.len() && vs[j] == u
}

/// Membership scan over the string list.
fn contains_str(vs: &Vec<String>, u: &str) -> (r: bool)
    ensures
        r == has_url(vs.deep_view(), u@),
{
    let ghost vv = vs.deep_view();
    let mut j: usize = 0;
    while j < vs.len()
        invariant
            vv == vs.deep_view(),
            vv.len() == vs@.len(),
            j <= vs@.len(),
            forall|q: int| 0 <= q < j ==> vv[q] != u@,
        decreases vs@.len() - j,
    {
        assert(vv[j as int] == vs@[j as int]@);
        if str_eq(vs[j].as_str(), u) {
            return true;
        }
        j += 1;
    }
    false
}

/// The whitelist paths absolutized against the base URL, in order.
pub open spec fn seeded(base: Seq<char>, wl: Seq<Seq<char>>, i: int) -> Seq<Seq<char>>
    decreases i,
{
    if i <= 0 {
        Seq::empty()
    } else {
        seeded(base, wl, i - 1).push(spec_join(base, wl[i - 1]))
    }
}

/// Draining up to `limit` URLs from the back of the frontier: an
/// already-visited URL is discarded; a fresh one is claimed in the
/// registry and enters the batch.  Yields the frontier and registry
/// left behind and the claimed batch, in drain order.
pub open spec fn drain(fr: Seq<Seq<char>>, vis: Seq<Seq<char>>, limit: nat) -> (
    Seq<Seq<char>>,
    Seq<Seq<char>>,
    Seq<Seq<char>>,
)
    decreases fr.len(),
{
    if limit == 0 || fr.len() == 0 {
        (fr, vis, Seq::empty())
    } else {
        let u = fr.last();
        let fr1 = fr.drop_last();
        if has_url(vis, u) {
            drain(fr1, vis, limit)
        } else {
            let r = drain(fr1, vis.push(u), (limit - 1) as nat);
            (r.0, r.1, seq![u] + r.2)
        }
    }
}

/// The frontier with the not-yet-visited directories of one page
/// appended, in page order.
pub open spec fn push_new(
    fr: Seq<Seq<char>>,
    vis: Seq<Seq<char>>,
    dirs: Seq<Seq<char>>,
    i: int,
) -> Seq<Seq<char>>
    decreases i,
{
    if i <= 0 {
        fr
    } else {
        let prev = push_new(fr, vis, dirs, i - 1);
        if has_url(vis, dirs[i - 1]) {
            prev
        } else {
            prev.push(dirs[i - 1])
        }
    }
}

proof fn lemma_drain_props(fr: Seq<Seq<char>>, vis: Seq<Seq<char>>, limit: nat)
    ensures
        ({
            let r = drain(fr, vis, limit);
            &&& r.2.len() <= limit
            &&& r.1 == vis + r.2
            &&& forall|k: int| 0 <= k < r.2.len() ==> !has_url(vis, #[trigger] r.2[k])
            &&& forall|a: int, b: int| 0 <= a < b < r.2.len() ==> r.2[a] != r.2[b]
            &&& r.0 == fr.subrange(0, r.0.len() as int)
            &&& r.0.len() <= fr.len()
        }),
    decreases fr.len(),
{
    let r = drain(fr, vis, limit);
    if limit == 0 || fr.len() == 0 {
        assert(vis + Seq::<Seq<char>>::empty() =~= vis);
        assert(fr.subrange(0, fr.len() as int) =~= fr);
    } else {
        let u = fr.last();
        let fr1 = fr.drop_last();
        assert(fr1 =~= fr.subrange(0, fr.len() - 1));
        if has_url(vis, u) {
            lemma_drain_props(fr1, vis, limit);
            assert(fr1.subrange(0, r.0.len() as int) =~= fr.subrange(0, r.0.len() as int));
        } else {
            lemma_drain_props(fr1, vis.push(u), (limit - 1) as nat);
            let r1 = drain(fr1, vis.push(u), (limit - 1) as nat);
            assert(r.2 =~= seq![u] + r1.2);
            assert(vis + (seq![u] + r1.2) =~= (vis.push(u)) + r1.2);
            assert forall|k: int| 0 <= k < r.2.len() implies !has_url(vis, r.2[k]) by {
                if k == 0 {
                    assert(r.2[0] == u);
                } else {
                    assert(r.2[k] == r1.2[k - 1]);
                    assert(!has_url(vis.push(u), r1.2[k - 1]));
                    if has_url(vis, r1.2[k - 1]) {
                        let w = choose|w: int| 0 <= w < vis.len() && vis[w] == r1.2[k - 1];
                        assert(vis.push(u)[w] == r1.2[k - 1]);
                    }
                }
            }
            assert forall|a: int, b: int| 0 <= a < b < r.2.len() implies r.2[a] != r.2[b] by {
                if a == 0 {
                    assert(r.2[0] == u);
                    assert(r.2[b] == r1.2[b - 1]);
                    assert(!has_url(vis.push(u), r1.2[b - 1]));
                    if r.2[b] == u {
                        assert(vis.push(u)[vis.len() as int] == u);
                    }
                } else {
                    assert(r.2[a] == r1.2[a - 1] && r.2[b] == r1.2[b - 1]);
                }
            }
            assert(fr1.subrange(0, r.0.len() as int) =~= fr.subrange(0, r.0.len() as int));
        }
    }
}

impl Crawler {
    /// No URL stands twice in the visited registry.
    pub open spec fn wf(&self) -> bool {
        forall|a: int, b: int|
            0 <= a < b < self.visited.deep_view().len() ==> self.visited.deep_view()[a]
                != self.visited.deep_view()[b]
    }

    /// A fresh crawl: the frontier holds the whitelist paths resolved
    /// against the base URL; nothing is visited, nothing found.
    pub fn new(base_url: &str, whitelist: &Vec<String>) -> (c: Crawler)
        ensures
            c.wf(),
            c.visited.deep_view() == Seq::<Seq<char>>::empty(),
            c.results.deep_view() == Seq::<Seq<char>>::empty(),
            c.frontier.deep_view() == seeded(
                base_url@,
                whitelist.deep_view(),
                whitelist.deep_view().len() as int,
            ),
    {
        let ghost wl = whitelist.deep_view();
        let mut frontier: Vec<String> = Vec::new();
        let mut i: usize = 0;
        proof {
            assert(frontier.deep_view() =~= Seq::<Seq<char>>::empty());
        }
        while i < whitelist.len()
            invariant
                wl == whitelist.deep_view(),
                wl.len() == whitelist@.len(),
                i <= wl.len(),
                frontier.deep_view() == seeded(base_url@, wl, i as int),
            decreases wl.len() - i,
        {
            assert(wl[i as int] == whitelist@[i as int]@);
            let ghost prev = frontier.deep_view();
            frontier.push(handle_slashes(base_url, whitelist[i].as_str()));
            proof {
                assert(frontier.deep_view() =~= prev.push(spec_join(base_url@, wl[i as int])));
            }
            i += 1;
        }
        let c = Crawler { visited: Vec::new(), frontier, results: Vec::new() };
        proof {
            assert(c.visited.deep_view() =~= Seq::<Seq<char>>::empty());
            assert(c.results.deep_view() =~= Seq::<Seq<char>>::empty());
        }
        c
    }

    /// The crawl is over when the frontier is empty.
    pub fn is_done(&self) -> (r: bool)
        ensures
            r == (self.frontier.deep_view().len() == 0),
    {
        self.frontier.is_empty()
    }

    /// Drain up to `limit` URLs for one round.  Every returned URL was
    /// unvisited, is claimed in the registry as of now, and appears
    /// only once: together with the registry's growth this keeps any
    /// URL from ever being fetched twice.
    pub fn next_batch(&mut self, limit: usize) -> (batch: Vec<String>)
        requires
            old(self).wf(),
        ensures
            final(self).wf(),
            ({
                let r = drain(
                    old(self).frontier.deep_view(),
                    old(self).visited.deep_view(),
                    limit as nat,
                );
                &&& final(self).frontier.deep_view() == r.0
                &&& final(self).visited.deep_view() == r.1
                &&& batch.deep_view() == r.2
            }),
            final(self).results == old(self).results,
            batch.deep_view().len() <= limit,
            final(self).visited.deep_view() == old(self).visited.deep_view() + batch.deep_view(),
            forall|k: int|
                0 <= k < batch.deep_view().len() ==> !has_url(
                    old(self).visited.deep_view(),
                    #[trigger] batch.deep_view()[k],
                ),
            forall|a: int, b: int|
                0 <= a < b < batch.deep_view().len() ==> batch.deep_view()[a]
                    != batch.deep_view()[b],
            forall|u: Seq<char>|
                has_url(old(self).visited.deep_view(), u) ==> has_url(
                    final(self).visited.deep_view(),
                    u,
                ),
    {
        let ghost fr0 = self.frontier.deep_view();
        let ghost vis0 = self.visited.deep_view();
        let ghost full = drain(fr0, vis0, limit as nat);
        let mut batch: Vec<String> = Vec::new();
        proof {
            assert(batch.deep_view() =~= Seq::<Seq<char>>::empty());
            assert(Seq::<Seq<char>>::empty() + full.2 =~= full.2);
        }
        while batch.len() < limit && self.frontier.len() > 0
            invariant
                old(self).frontier.deep_view() == fr0,
                old(self).visited.deep_view() == vis0,
                full == drain(fr0, vis0, limit as nat),
                self.results == old(self).results,
                batch@.len() <= limit,
                self.wf(),
                ({
                    let r = drain(
                        self.frontier.deep_view(),
                        self.visited.deep_view(),
                        (limit - batch@.len()) as nat,
                    );
                    &&& full.0 == r.0
                    &&& full.1 == r.1
                    &&& full.2 == batch.deep_view() + r.2
                }),
            decreases self.frontier@.len(),
        {
            let ghost fr_pre = self.frontier.deep_view();
            let ghost vis_pre = self.visited.deep_view();
            let ghost rem = (limit - batch@.len()) as nat;
            let u = self.frontier.pop().unwrap();
            proof {
                assert(self.frontier.deep_view() =~= fr_pre.drop_last());
                assert(fr_pre.last() == u@);
            }
            if !contains_str(&self.visited, u.as_str()) {
                let ghost prev_vis = self.visited.deep_view();
                let ghost prev_batch = batch.deep_view();
                self.visited.push(u.clone());
                batch.push(u);
                proof {
                    assert(self.visited.deep_view() =~= prev_vis.push(fr_pre.last()));
                    assert(batch.deep_view() =~= prev_batch.push(fr_pre.last()));
                    let r_new = drain(
                        self.frontier.deep_view(),
                        self.visited.deep_view(),
                        (limit - batch@.len()) as nat,
                    );
                    assert(prev_batch + (seq![fr_pre.last()] + r_new.2) =~= batch.deep_view()
                        + r_new.2);
                    assert forall|a: int, b: int|
                        0 <= a < b < self.visited.deep_view().len() implies self.visited.deep_view()[a]
                        != self.visited.deep_view()[b] by {
                        if b == prev_vis.len() {
                            assert(!has_url(prev_vis, fr_pre.last()));
                            if self.visited.deep_view()[a] == fr_pre.last() {
                                assert(prev_vis[a] == fr_pre.last());
                            }
                        }
                    }
                }
            }
        }
        proof {
            let r_end = drain(
                self.frontier.deep_view(),
                self.visited.deep_view(),
                (limit - batch@.len()) as nat,
            );
            assert(r_end.2 =~= Seq::<Seq<char>>::empty());
            assert(batch.deep_view() + Seq::<Seq<char>>::empty() =~= batch.deep_view());
            lemma_drain_props(fr0, vis0, limit as nat);
            assert forall|u: Seq<char>| has_url(vis0, u) implies has_url(
                self.visited.deep_view(),
                u,
            ) by {
                let w = choose|w: int| 0 <= w < vis0.len() && vis0[w] == u;
                assert(self.visited.deep_view()[w] == u);
            }
        }
        batch
    }

    /// Record one classified page: its files join the results, its
    /// directories that are not yet visited join the frontier.
    pub fn record_page(&mut self, page: ExtractedLinks)
        requires
            old(self).wf(),
        ensures
            final(self).wf(),
            final(self).visited == old(self).visited,
            final(self).results.deep_view() == old(self).results.deep_view()
                + page.files.deep_view(),
            final(self).frontier.deep_view() == push_new(
                old(self).frontier.deep_view(),
                old(self).visited.deep_view(),
                page.directories.deep_view(),
                page.directories.deep_view().len() as int,
            ),
    {
        let mut page = page;
        let ghost dirs = page.directories.deep_view();
        let ghost vis = self.visited.deep_view();
        let ghost fr0 = self.frontier.deep_view();
        let n = page.directories.len();
        let mut i: usize = 0;
        while i < n
            invariant
                old(self).visited.deep_view() == vis,
                old(self).frontier.deep_view() == fr0,
                self.visited == old(self).visited,
                self.results == old(self).results,
                self.wf(),
                n == page.directories@.len(),
                dirs == page.directories.deep_view(),
                dirs.len() == n,
                i <= n,
                self.frontier.deep_view() == push_new(fr0, vis, dirs, i as int),
            decreases n - i,
        {
            assert(dirs[i as int] == page.directories@[i as int]@);
            if !contains_str(&self.visited, page.directories[i].as_str()) {
                let ghost prev = self.frontier.deep_view();
                self.frontier.push(page.directories[i].clone());
                proof {
                    assert(self.frontier.deep_view() =~= prev.push(dirs[i as int]));
                }
            }
            i += 1;
        }
        let ghost res0 = self.results.deep_view();
        let ghost files = page.files.deep_view();
        self.results.append(&mut page.files);
        proof {
            assert(self.results.deep_view() =~= res0 + files);
        }
    }

    /// Hand the accumulated file URLs to the downstream downloader.
    pub fn into_results(self) -> (r: Vec<String>)
        ensures
            r == self.results,
    {
        self.results
    }
}

/// Law: a URL discovered by however many concurrent workers is fetched
/// at most once in a crawl.  A drained batch holds no URL twice, holds
/// only URLs that were unvisited and stand claimed from then on, and
/// the registry only grows; so the batches of any two moments of the
/// crawl — here their claims and freshness as `next_batch` ensures
/// them — can share no URL.
pub proof fn lemma_no_refetch(
    b1: Seq<Seq<char>>,
    v1: Seq<Seq<char>>,
    v2: Seq<Seq<char>>,
    b2: Seq<Seq<char>>,
)
    requires
        forall|k: int| 0 <= k < b1.len() ==> has_url(v1, #[trigger] b1[k]),
        forall|u: Seq<char>| has_url(v1, u) ==> has_url(v2, u),
        forall|k: int| 0 <= k < b2.len() ==> !has_url(v2, #[trigger] b2[k]),
    ensures
        forall|a: int, b: int| 0 <= a < b1.len() && 0 <= b < b2.len() ==> b1[a] != b2[b],
{
    assert forall|a: int, b: int| 0 <= a < b1.len() && 0 <= b < b2.len() implies b1[a]
        != b2[b] by {
        assert(has_url(v1, b1[a]));
        assert(has_url(v2, b1[a]));
        assert(!has_url(v2, b2[b]));
    }
}

} // verus!
