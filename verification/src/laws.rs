//! Properties of the search as a whole.
use vstd::prelude::*;
use vstd::relations::sorted_by;

use crate::model::{
    absorb, at_threshold, clustered, first_min, first_near_at, hit_order_fn, region_search,
    whole_search, Hit, ImageModel, Search,
};
use crate::rank::lemma_hit_order_total;
use crate::scan::lemma_geometry;

verus! {

/// The window that entry `i` of row `py` comes from.
proof fn lemma_row_hit_source(s: Search, py: int, n: nat, i: int) -> (px: int)
    requires
        0 <= i < s.row_hits(py, n).len(),
    ensures
        0 <= px < n,
        s.accepts(px, py),
        s.row_hits(py, n)[i] == s.hit(px, py),
    decreases n,
{
    let prev = s.row_hits(py, (n - 1) as nat);
    if s.accepts(n - 1, py) && i == prev.len() {
        n - 1
    } else {
        lemma_row_hit_source(s, py, (n - 1) as nat, i)
    }
}

/// Where an accepted window of row `py` is reported.
proof fn lemma_row_hit_index(s: Search, py: int, n: nat, px: int) -> (i: int)
    requires
        0 <= px < n,
        s.accepts(px, py),
    ensures
        0 <= i < s.row_hits(py, n).len(),
        s.row_hits(py, n)[i] == s.hit(px, py),
    decreases n,
{
    let prev = s.row_hits(py, (n - 1) as nat);
    if px == n - 1 {
        prev.len() as int
    } else {
        lemma_row_hit_index(s, py, (n - 1) as nat, px)
    }
}

/// The window that entry `i` of the rows below `rows` comes from.
proof fn lemma_hit_source(s: Search, rows: nat, i: int) -> (p: (int, int))
    requires
        0 <= s.last_x(),
        0 <= i < s.hits_before(rows).len(),
    ensures
        0 <= p.0 <= s.last_x(),
        0 <= p.1 < rows,
        s.accepts(p.0, p.1),
        s.hits_before(rows)[i] == s.hit(p.0, p.1),
    decreases rows,
{
    let r = rows - 1;
    let n = (s.last_x() + 1) as nat;
    let prev = s.hits_before(r as nat);
    let row = s.row_hits(r, n);
    assert(s.hits_before(rows) == prev + row);
    if i < prev.len() {
        lemma_hit_source(s, r as nat, i)
    } else {
        let px = lemma_row_hit_source(s, r, n, i - prev.len());
        (px, r)
    }
}

/// Where an accepted window of the rows below `rows` is reported.
proof fn lemma_hit_index(s: Search, rows: nat, px: int, py: int) -> (i: int)
    requires
        0 <= s.last_x(),
        0 <= px <= s.last_x(),
        0 <= py < rows,
        s.accepts(px, py),
    ensures
        0 <= i < s.hits_before(rows).len(),
        s.hits_before(rows)[i] == s.hit(px, py),
    decreases rows,
{
    let r = rows - 1;
    let n = (s.last_x() + 1) as nat;
    let prev = s.hits_before(r as nat);
    let row = s.row_hits(r, n);
    assert(s.hits_before(rows) == prev + row);
    if py < r {
        lemma_hit_index(s, r as nat, px, py)
    } else {
        let j = lemma_row_hit_index(s, r, n, px);
        prev.len() + j
    }
}

/// The difference sums do not depend on the tolerance.
proof fn lemma_rows_diff_tolerance_free(s: Search, t: int, px: int, py: int, n: nat)
    ensures
        s.with_tolerance(t).rows_diff(px, py, n) == s.rows_diff(px, py, n),
    decreases n,
{
    if n > 0 {
        lemma_rows_diff_tolerance_free(s, t, px, py, (n - 1) as nat);
    }
}

/// A search reports exactly the windows whose difference sum is at most
/// `tolerance * pixels()`: `e` is reported if and only if it is what some
/// accepted window position inside the region reports.
pub proof fn law_hits_are_accepted_windows(s: Search)
    requires
        s.well_posed(),
        s.fits(),
        s.screen.well_formed(),
        s.sample.well_formed(),
    ensures
        forall|e: Hit|
            s.hits().contains(e) <==> exists|px: int, py: int|
                0 <= px <= s.last_x() && 0 <= py <= s.last_y() && s.accepts(px, py) && e
                    == #[trigger] s.hit(px, py),
{
    lemma_geometry(s);
    lemma_hits_members(s);
}

/// Membership in the hits, for any search with window positions.
proof fn lemma_hits_members(s: Search)
    requires
        0 <= s.last_x(),
        0 <= s.last_y(),
    ensures
        forall|e: Hit|
            s.hits().contains(e) <==> exists|px: int, py: int|
                0 <= px <= s.last_x() && 0 <= py <= s.last_y() && s.accepts(px, py) && e
                    == #[trigger] s.hit(px, py),
{
    let rows = (s.last_y() + 1) as nat;
    assert forall|e: Hit|
        s.hits().contains(e) <==> exists|px: int, py: int|
            0 <= px <= s.last_x() && 0 <= py <= s.last_y() && s.accepts(px, py) && e
                == #[trigger] s.hit(px, py) by {
        if s.hits().contains(e) {
            let i = choose|i: int| 0 <= i < s.hits().len() && s.hits()[i] == e;
            let p = lemma_hit_source(s, rows, i);
            assert(0 <= p.0 <= s.last_x() && 0 <= p.1 <= s.last_y() && s.accepts(p.0, p.1) && e
                == s.hit(p.0, p.1));
        }
        if exists|px: int, py: int|
            0 <= px <= s.last_x() && 0 <= py <= s.last_y() && s.accepts(px, py) && e
                == #[trigger] s.hit(px, py) {
            let (px, py) = choose|px: int, py: int|
                0 <= px <= s.last_x() && 0 <= py <= s.last_y() && s.accepts(px, py) && e
                    == #[trigger] s.hit(px, py);
            let i = lemma_hit_index(s, rows, px, py);
            assert(s.hits()[i] == e);
        }
    }
}

/// Every reported match lies inside the region, with the sample fully inside
/// it, and its tolerance value is at most the tolerance searched with.
pub proof fn law_hits_inside(s: Search)
    requires
        s.well_posed(),
        s.fits(),
        s.screen.well_formed(),
        s.sample.well_formed(),
    ensures
        forall|e: Hit|
            #![trigger s.hits().contains(e)]
            s.hits().contains(e) ==> {
                &&& 0 <= e.0 <= s.tolerance
                &&& s.x0 <= e.1 <= s.x0 + s.last_x()
                &&& s.y0 <= e.2 <= s.y0 + s.last_y()
                &&& (e.1 - s.x0) * s.screen.channels + s.sample.row_len() <= (s.x1 - s.x0)
                    * s.screen.channels
                &&& e.2 + s.sample.height <= s.y1
            },
{
    lemma_geometry(s);
    law_hits_are_accepted_windows(s);
    assert forall|e: Hit| #![trigger s.hits().contains(e)] s.hits().contains(e) implies {
        &&& 0 <= e.0 <= s.tolerance
        &&& s.x0 <= e.1 <= s.x0 + s.last_x()
        &&& s.y0 <= e.2 <= s.y0 + s.last_y()
        &&& (e.1 - s.x0) * s.screen.channels + s.sample.row_len() <= (s.x1 - s.x0)
            * s.screen.channels
        &&& e.2 + s.sample.height <= s.y1
    } by {
        let (px, py) = choose|px: int, py: int|
            0 <= px <= s.last_x() && 0 <= py <= s.last_y() && s.accepts(px, py) && e
                == #[trigger] s.hit(px, py);
        crate::scan::lemma_rows_diff_mono(s, px, py, 0, s.sampled_rows() as nat);
        crate::arith::lemma_div_le(s.window_diff(px, py), s.tolerance, s.pixels());
        crate::arith::lemma_mul_le(px, s.last_x(), s.screen.channels);
    }
}

/// Raising the tolerance never loses a match: everything reported at a
/// tolerance is reported, unchanged, at any larger one.
pub proof fn law_tolerance_monotone(s: Search, t: int)
    requires
        s.well_posed(),
        s.fits(),
        s.screen.well_formed(),
        s.sample.well_formed(),
        s.tolerance <= t,
    ensures
        forall|e: Hit| s.hits().contains(e) ==> #[trigger] s.with_tolerance(t).hits().contains(e),
{
    let u = s.with_tolerance(t);
    law_hits_are_accepted_windows(s);
    lemma_geometry(s);
    assert(u.last_x() == s.last_x() && u.last_y() == s.last_y());
    lemma_hits_members(u);
    assert forall|e: Hit| s.hits().contains(e) implies #[trigger] u.hits().contains(e) by {
        let (px, py) = choose|px: int, py: int|
            0 <= px <= s.last_x() && 0 <= py <= s.last_y() && s.accepts(px, py) && e
                == #[trigger] s.hit(px, py);
        lemma_rows_diff_tolerance_free(s, t, px, py, s.sampled_rows() as nat);
        lemma_geometry(s);
        crate::arith::lemma_mul_le(s.tolerance, t, s.pixels());
        assert(u.accepts(px, py));
        assert(u.hit(px, py) == e);
    }
}

/// Where the best entry stands.
proof fn lemma_first_min_index(hits: Seq<Hit>) -> (i: int)
    requires
        hits.len() > 0,
    ensures
        0 <= i < hits.len(),
        hits[i] == first_min(hits),
        forall|j: int| 0 <= j < i ==> (#[trigger] hits[j]).0 > first_min(hits).0,
        forall|j: int| 0 <= j < hits.len() ==> (#[trigger] hits[j]).0 >= first_min(hits).0,
    decreases hits.len(),
{
    if hits.len() == 1 {
        0
    } else {
        let d = hits.drop_last();
        let i0 = lemma_first_min_index(d);
        let m = first_min(d);
        assert forall|j: int| 0 <= j < hits.len() - 1 implies #[trigger] hits[j] == d[j] by {}
        if hits.last().0 < m.0 {
            hits.len() - 1
        } else {
            i0
        }
    }
}

/// The best entry is an entry, no entry has a smaller tolerance value, and no
/// earlier entry has the same one.
pub proof fn law_first_min(hits: Seq<Hit>)
    requires
        hits.len() > 0,
    ensures
        exists|i: int|
            0 <= i < hits.len() && hits[i] == first_min(hits) && forall|j: int|
                0 <= j < i ==> (#[trigger] hits[j]).0 > first_min(hits).0,
        forall|j: int| 0 <= j < hits.len() ==> (#[trigger] hits[j]).0 >= first_min(hits).0,
{
    let i = lemma_first_min_index(hits);
    assert(0 <= i < hits.len() && hits[i] == first_min(hits) && forall|j: int|
        0 <= j < i ==> (#[trigger] hits[j]).0 > first_min(hits).0);
}

/// Merging keeps only reported hits, never adds entries, and leaves nothing
/// only when there was nothing to merge.
pub proof fn law_clusters_from_hits(hits: Seq<Hit>, w: int, h: int)
    ensures
        clustered(hits, w, h).len() <= hits.len(),
        clustered(hits, w, h).len() == 0 <==> hits.len() == 0,
        forall|e: Hit| #[trigger] clustered(hits, w, h).contains(e) ==> hits.contains(e),
    decreases hits.len(),
{
    if hits.len() > 0 {
        let d = hits.drop_last();
        let e = hits.last();
        law_clusters_from_hits(d, w, h);
        let f = clustered(d, w, h);
        assert(hits == d.push(e));
        assert forall|x: Hit| #[trigger] absorb(f, e, w, h).contains(x) implies hits.contains(x) by {
            let a = absorb(f, e, w, h);
            let k = choose|k: int| 0 <= k < a.len() && a[k] == x;
            if x == e {
                assert(hits[hits.len() - 1] == e);
            } else {
                if exists|i: int| first_near_at(f, e, w, h, i) {
                    let i = choose|i: int| first_near_at(f, e, w, h, i);
                    assert(f[k] == x);
                } else {
                    assert(f[k] == x);
                }
                assert(f.contains(x));
                assert(d.contains(x));
                let m = choose|m: int| 0 <= m < d.len() && d[m] == x;
                assert(hits[m] == x);
            }
        }
        if f.len() == 0 {
            assert(!exists|i: int| first_near_at(f, e, w, h, i));
        }
    }
}

/// The ranked entries are sorted by tolerance value, then position, and are
/// the merged entries rearranged.
pub proof fn law_ranked_sorted(s: Search)
    ensures
        sorted_by(s.ranked(), hit_order_fn()),
        s.ranked().to_multiset() == s.clusters().to_multiset(),
        s.ranked().len() == s.clusters().len(),
{
    lemma_hit_order_total();
    s.clusters().lemma_sort_by_ensures(hit_order_fn());
    vstd::seq_lib::to_multiset_len(s.ranked());
    vstd::seq_lib::to_multiset_len(s.clusters());
}

/// The tolerance value of the overall best window decides whether a search
/// finds anything: a search that finds a match has a tolerance of at least
/// that value, and a tolerance above it always finds one.
pub proof fn law_best_tolerance_decides(s: Search, t: int)
    requires
        s.tolerance == 255,
        s.well_posed(),
        s.fits(),
        s.screen.well_formed(),
        s.sample.well_formed(),
        0 <= t <= 255,
    ensures
        s.hits().len() > 0,
        s.with_tolerance(t).hits().len() > 0 ==> first_min(s.hits()).0 <= t,
        first_min(s.hits()).0 < t ==> s.with_tolerance(t).hits().len() > 0,
{
    let u = s.with_tolerance(t);
    lemma_geometry(s);
    crate::scan::lemma_full_tolerance_hits(s);
    law_hits_are_accepted_windows(s);
    assert(u.last_x() == s.last_x() && u.last_y() == s.last_y());
    lemma_hits_members(u);
    law_first_min(s.hits());
    let b = first_min(s.hits());
    let p = s.pixels();
    if u.hits().len() > 0 {
        let e = u.hits()[0];
        assert(u.hits().contains(e));
        let (px, py) = choose|px: int, py: int|
            0 <= px <= u.last_x() && 0 <= py <= u.last_y() && u.accepts(px, py) && e
                == #[trigger] u.hit(px, py);
        assert(s.accepts(px, py));
        assert(s.hits().contains(s.hit(px, py)));
        let k = choose|k: int| 0 <= k < s.hits().len() && s.hits()[k] == s.hit(px, py);
        lemma_rows_diff_tolerance_free(s, t, px, py, s.sampled_rows() as nat);
        crate::scan::lemma_rows_diff_mono(s, px, py, 0, s.sampled_rows() as nat);
        crate::arith::lemma_div_le(s.window_diff(px, py), t, p);
    }
    if b.0 < t {
        let i = choose|i: int| 0 <= i < s.hits().len() && s.hits()[i] == b;
        assert(s.hits().contains(b));
        let (px, py) = choose|px: int, py: int|
            0 <= px <= s.last_x() && 0 <= py <= s.last_y() && s.accepts(px, py) && b
                == #[trigger] s.hit(px, py);
        let d = s.window_diff(px, py);
        crate::scan::lemma_rows_diff_mono(s, px, py, 0, s.sampled_rows() as nat);
        lemma_rows_diff_tolerance_free(s, t, px, py, s.sampled_rows() as nat);
        assert(d <= t * p) by (nonlinear_arith)
            requires
                d / p < t,
                p > 0,
                d >= 0,
        ;
        assert(u.accepts(px, py));
        assert(u.hits().contains(u.hit(px, py)));
    }
}

/// Searching the region that spans the whole screen is searching the whole
/// screen.
pub proof fn law_full_region_is_whole_screen(
    screen: ImageModel,
    sample: ImageModel,
    region: [[u16; 2]; 2],
    tolerance: int,
)
    requires
        region[0][0] == 0,
        region[0][1] == 0,
        region[1][0] == screen.width,
        region[1][1] == screen.height,
    ensures
        region_search(screen, sample, region, tolerance) == whole_search(screen, sample, tolerance),
{
}

/// A check at one position that accepts at a tolerance accepts at every
/// larger one.
pub proof fn law_at_tolerance_monotone(sample: ImageModel, diff: int, t1: int, t2: int)
    requires
        diff <= at_threshold(sample, t1),
        t1 <= t2,
    ensures
        diff <= at_threshold(sample, t2),
{
    crate::arith::lemma_mul_le(t1, t2, sample.bytes.len() as int);
}


/// The ranking lists the merged matches from the smallest tolerance value to
/// the largest, ties broken by x, then y, all compared as numbers; entry 0 has
/// the smallest tolerance value of all merged matches.
pub proof fn law_ranked_ascending(s: Search)
    ensures
        forall|i: int, j: int|
            0 <= i < j < s.ranked().len() ==> {
                let a = #[trigger] s.ranked()[i];
                let b = #[trigger] s.ranked()[j];
                a.0 < b.0 || (a.0 == b.0 && (a.1 < b.1 || (a.1 == b.1 && a.2 <= b.2)))
            },
        forall|i: int, j: int|
            0 <= i < j < s.ranked().len() ==> (#[trigger] s.ranked()[i]).0 <= (
            #[trigger] s.ranked()[j]).0,
        s.ranked().len() == s.clusters().len(),
        forall|e: Hit| s.ranked().contains(e) <==> #[trigger] s.clusters().contains(e),
        forall|k: int|
            0 <= k < s.clusters().len() ==> s.ranked()[0].0 <= (#[trigger] s.clusters()[k]).0,
{
    law_ranked_sorted(s);
    let r = s.ranked();
    let c = s.clusters();
    assert forall|i: int, j: int| 0 <= i < j < r.len() implies {
        let a = #[trigger] r[i];
        let b = #[trigger] r[j];
        a.0 < b.0 || (a.0 == b.0 && (a.1 < b.1 || (a.1 == b.1 && a.2 <= b.2)))
    } by {
        assert(hit_order_fn()(r[i], r[j]));
    }
    assert forall|e: Hit| r.contains(e) <==> #[trigger] c.contains(e) by {
        vstd::seq_lib::to_multiset_contains(r, e);
        vstd::seq_lib::to_multiset_contains(c, e);
    }
    assert forall|k: int| 0 <= k < c.len() implies r[0].0 <= (#[trigger] c[k]).0 by {
        assert(c.contains(c[k]));
        assert(r.contains(c[k]));
        let m = choose|m: int| 0 <= m < r.len() && r[m] == c[k];
        if m > 0 {
            assert(hit_order_fn()(r[0], r[m]));
        }
    }
}

/// Two hits lie at least one merge distance apart, in x or in y.
pub open spec fn apart(a: Hit, b: Hit, w: int, h: int) -> bool {
    a.1 - b.1 >= w || b.1 - a.1 >= w || a.2 - b.2 >= h || b.2 - a.2 >= h
}

/// Hits that lie pairwise at least one merge distance apart (in x or in y,
/// either direction) are all kept: merging leaves them unchanged.
pub proof fn law_apart_hits_not_merged(hits: Seq<Hit>, w: int, h: int)
    requires
        forall|i: int, j: int|
            0 <= i < j < hits.len() ==> apart(#[trigger] hits[i], #[trigger] hits[j], w, h),
    ensures
        clustered(hits, w, h) == hits,
    decreases hits.len(),
{
    if hits.len() > 0 {
        let d = hits.drop_last();
        let e = hits.last();
        assert forall|i: int, j: int| 0 <= i < j < d.len() implies apart(
            #[trigger] d[i],
            #[trigger] d[j],
            w,
            h,
        ) by {
            assert(d[i] == hits[i] && d[j] == hits[j]);
        }
        law_apart_hits_not_merged(d, w, h);
        assert forall|i: int| !first_near_at(d, e, w, h, i) by {
            if 0 <= i < d.len() {
                assert(d[i] == hits[i]);
                assert(apart(hits[i], hits[hits.len() - 1], w, h));
            }
        }
        assert(hits =~= d.push(e));
    }
}

/// A search whose accepted windows lie pairwise at least one sample row width
/// (in pixels) apart in x, or one sample height apart in y, counts every one
/// of them.
pub proof fn law_apart_matches_all_counted(s: Search)
    requires
        forall|i: int, j: int|
            0 <= i < j < s.hits().len() ==> apart(
                #[trigger] s.hits()[i],
                #[trigger] s.hits()[j],
                s.sample.row_len() / s.screen.channels,
                s.sample.height,
            ),
    ensures
        s.clusters() == s.hits(),
        s.clusters().len() == s.hits().len(),
{
    law_apart_hits_not_merged(s.hits(), s.sample.row_len() / s.screen.channels, s.sample.height);
}

/// Some entry of `f` lies within merge distance of `e` in both directions.
pub open spec fn has_close(f: Seq<Hit>, e: Hit, w: int, h: int) -> bool {
    exists|j: int| 0 <= j < f.len() && !apart(#[trigger] f[j], e, w, h)
}

proof fn lemma_first_close(f: Seq<Hit>, e: Hit, w: int, h: int, j: int)
    requires
        0 <= j < f.len(),
        !apart(f[j], e, w, h),
    ensures
        exists|i: int| first_near_at(f, e, w, h, i),
    decreases j,
{
    if exists|k: int| 0 <= k < j && !apart(#[trigger] f[k], e, w, h) {
        let k = choose|k: int| 0 <= k < j && !apart(#[trigger] f[k], e, w, h);
        lemma_first_close(f, e, w, h, k);
    } else {
        assert(first_near_at(f, e, w, h, j));
    }
}

/// Adding a hit to the merged list changes at most one entry: with no entry
/// within merge distance the hit is appended; otherwise the list keeps its
/// length, and the first entry within merge distance of the hit, and no other,
/// is replaced by the hit exactly when the hit has a smaller tolerance value.
pub proof fn law_absorb_changes_one(f: Seq<Hit>, e: Hit, w: int, h: int)
    ensures
        ({
            let g = absorb(f, e, w, h);
            &&& !has_close(f, e, w, h) ==> g == f.push(e)
            &&& has_close(f, e, w, h) ==> g.len() == f.len()
            &&& forall|j: int|
                0 <= j < f.len() ==> #[trigger] g[j] == f[j] || (g[j] == e && e.0 < f[j].0
                    && !apart(f[j], e, w, h) && forall|k: int|
                    0 <= k < j ==> apart(#[trigger] f[k], e, w, h))
            &&& forall|j: int|
                0 <= j < f.len() && !apart(f[j], e, w, h) && e.0 < f[j].0 && (forall|k: int|
                    0 <= k < j ==> apart(#[trigger] f[k], e, w, h)) ==> #[trigger] g[j] == e
            &&& forall|j: int, k: int|
                0 <= j < k < f.len() ==> #[trigger] g[j] == f[j] || #[trigger] g[k] == f[k]
        }),
{
    let g = absorb(f, e, w, h);
    if has_close(f, e, w, h) {
        let j = choose|j: int| 0 <= j < f.len() && !apart(#[trigger] f[j], e, w, h);
        lemma_first_close(f, e, w, h, j);
        let i = choose|i: int| first_near_at(f, e, w, h, i);
        assert forall|j: int|
            0 <= j < f.len() && !apart(f[j], e, w, h) && e.0 < f[j].0 && (forall|k: int|
                0 <= k < j ==> apart(#[trigger] f[k], e, w, h)) implies #[trigger] g[j] == e by {
            assert(first_near_at(f, e, w, h, j));
            crate::model::lemma_first_near_unique(f, e, w, h, i, j);
        }
    } else {
        assert forall|i: int| !first_near_at(f, e, w, h, i) by {
            if 0 <= i < f.len() {
                assert(apart(f[i], e, w, h));
            }
        }
    }
}

/// Merging distinct hits gives distinct entries.
pub proof fn law_clustered_distinct(hits: Seq<Hit>, w: int, h: int)
    requires
        hits.no_duplicates(),
    ensures
        clustered(hits, w, h).no_duplicates(),
    decreases hits.len(),
{
    if hits.len() > 0 {
        let d = hits.drop_last();
        let e = hits.last();
        assert(d.no_duplicates()) by {
            assert forall|i: int, j: int| 0 <= i < d.len() && 0 <= j < d.len() && i != j implies d[i]
                != d[j] by {
                assert(d[i] == hits[i] && d[j] == hits[j]);
            }
        }
        law_clustered_distinct(d, w, h);
        law_clusters_from_hits(d, w, h);
        let f = clustered(d, w, h);
        assert(!f.contains(e)) by {
            if f.contains(e) {
                assert(d.contains(e));
                let k = choose|k: int| 0 <= k < d.len() && d[k] == e;
                assert(hits[k] == hits[hits.len() - 1]);
            }
        }
        law_absorb_changes_one(f, e, w, h);
        let g = absorb(f, e, w, h);
        assert forall|i: int, j: int| 0 <= i < g.len() && 0 <= j < g.len() && i != j implies g[i]
            != g[j] by {
            if i < f.len() && j < f.len() {
                if g[i] == f[i] && g[j] == f[j] {
                } else if g[i] == f[i] {
                    assert(g[j] == e);
                    assert(f.contains(f[i]));
                } else {
                    assert(g[i] == e);
                    if i < j {
                        assert(g[j] == f[j]);
                    } else {
                        assert(g[j] == f[j]);
                    }
                    assert(f.contains(f[j]));
                }
            } else if i < f.len() {
                assert(g == f.push(e));
                assert(f.contains(f[i]));
            } else {
                assert(g == f.push(e));
                assert(f.contains(f[j]));
            }
        }
    }
}

/// Row `py` reports hits at that row, left to right.
proof fn lemma_row_hits_order(s: Search, py: int, n: nat)
    ensures
        forall|i: int|
            0 <= i < s.row_hits(py, n).len() ==> (#[trigger] s.row_hits(py, n)[i]).2 == s.y0 + py
                && s.x0 <= s.row_hits(py, n)[i].1 < s.x0 + n,
        forall|i: int, j: int|
            0 <= i < j < s.row_hits(py, n).len() ==> (#[trigger] s.row_hits(py, n)[i]).1 < (
            #[trigger] s.row_hits(py, n)[j]).1,
    decreases n,
{
    if n > 0 {
        lemma_row_hits_order(s, py, (n - 1) as nat);
        let prev = s.row_hits(py, (n - 1) as nat);
        let cur = s.row_hits(py, n);
        if s.accepts(n - 1, py) {
            assert(cur == prev.push(s.hit(n - 1, py)));
            assert forall|i: int| 0 <= i < cur.len() implies (#[trigger] cur[i]).2 == s.y0 + py
                && s.x0 <= cur[i].1 < s.x0 + n by {
                if i < prev.len() {
                    assert(cur[i] == prev[i]);
                }
            }
            assert forall|i: int, j: int| 0 <= i < j < cur.len() implies (#[trigger] cur[i]).1 < (
            #[trigger] cur[j]).1 by {
                assert(cur[i] == prev[i]);
                if j < prev.len() {
                    assert(cur[j] == prev[j]);
                }
            }
        } else {
            assert(cur == prev);
        }
    }
}

/// The rows below `rows` report hits top to bottom, each row left to right.
proof fn lemma_hits_before_order(s: Search, rows: nat)
    ensures
        forall|i: int|
            0 <= i < s.hits_before(rows).len() ==> s.y0 <= (#[trigger] s.hits_before(rows)[i]).2
                < s.y0 + rows,
        forall|i: int, j: int|
            0 <= i < j < s.hits_before(rows).len() ==> {
                let a = #[trigger] s.hits_before(rows)[i];
                let b = #[trigger] s.hits_before(rows)[j];
                a.2 < b.2 || (a.2 == b.2 && a.1 < b.1)
            },
    decreases rows,
{
    if rows > 0 {
        let r = rows - 1;
        let n = (s.last_x() + 1) as nat;
        lemma_hits_before_order(s, r as nat);
        lemma_row_hits_order(s, r, n);
        let prev = s.hits_before(r as nat);
        let row = s.row_hits(r, n);
        let all = prev + row;
        assert(s.hits_before(rows) == all);
        assert forall|i: int| 0 <= i < all.len() implies s.y0 <= (#[trigger] all[i]).2 < s.y0
            + rows by {
            if i >= prev.len() {
                assert(all[i] == row[i - prev.len()]);
            }
        }
        assert forall|i: int, j: int| 0 <= i < j < all.len() implies {
            let a = #[trigger] all[i];
            let b = #[trigger] all[j];
            a.2 < b.2 || (a.2 == b.2 && a.1 < b.1)
        } by {
            if j < prev.len() {
            } else if i < prev.len() {
                assert(all[j] == row[j - prev.len()]);
            } else {
                assert(all[i] == row[i - prev.len()]);
                assert(all[j] == row[j - prev.len()]);
            }
        }
    }
}

/// Hits come in scan order: top to bottom, and left to right within a row; in
/// particular no hit is reported twice.
pub proof fn law_hits_in_scan_order(s: Search)
    ensures
        forall|i: int, j: int|
            0 <= i < j < s.hits().len() ==> {
                let a = #[trigger] s.hits()[i];
                let b = #[trigger] s.hits()[j];
                a.2 < b.2 || (a.2 == b.2 && a.1 < b.1)
            },
        s.hits().no_duplicates(),
{
    lemma_hits_before_order(s, (s.last_y() + 1) as nat);
    let hs = s.hits();
    assert forall|i: int, j: int| 0 <= i < hs.len() && 0 <= j < hs.len() && i != j implies hs[i]
        != hs[j] by {
        if i < j {
            assert(hs[i].2 < hs[j].2 || (hs[i].2 == hs[j].2 && hs[i].1 < hs[j].1));
        } else {
            assert(hs[j].2 < hs[i].2 || (hs[j].2 == hs[i].2 && hs[j].1 < hs[i].1));
        }
    }
}

/// The merged matches of a search are distinct: each point is listed once.
pub proof fn law_clusters_distinct(s: Search)
    ensures
        s.clusters().no_duplicates(),
        forall|i: int, j: int|
            0 <= i < s.clusters().len() && 0 <= j < s.clusters().len() && i != j ==> (
            #[trigger] s.clusters()[i]).1 != (#[trigger] s.clusters()[j]).1 || s.clusters()[i].2
                != s.clusters()[j].2,
{
    law_hits_in_scan_order(s);
    law_clustered_distinct(s.hits(), s.merge_width(), s.sample.height);
    law_clusters_from_hits(s.hits(), s.merge_width(), s.sample.height);
    let c = s.clusters();
    let hs = s.hits();
    assert forall|i: int, j: int|
        0 <= i < c.len() && 0 <= j < c.len() && i != j implies (#[trigger] c[i]).1 != (
        #[trigger] c[j]).1 || c[i].2 != c[j].2 by {
        assert(c.contains(c[i]) && c.contains(c[j]));
        let a = choose|a: int| 0 <= a < hs.len() && hs[a] == c[i];
        let b = choose|b: int| 0 <= b < hs.len() && hs[b] == c[j];
        assert(a != b);
        if a < b {
            assert(hs[a].2 < hs[b].2 || (hs[a].2 == hs[b].2 && hs[a].1 < hs[b].1));
        } else {
            assert(hs[b].2 < hs[a].2 || (hs[b].2 == hs[a].2 && hs[b].1 < hs[a].1));
        }
    }
}
} // verus!
