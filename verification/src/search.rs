//! The public search functions.
use vstd::prelude::*;

use crate::compare;
use crate::image::Image;
use crate::model::{
    at_diff, at_threshold, at_well_posed, best_point, first_min, hit_of, hits_of, nth_point,
    point_of, point_opt, points_of, points_of_hits, region_search, search_for, whole_search, Hit,
};
use crate::rank::rank;
use crate::laws::{law_first_min, law_hits_inside, law_ranked_sorted};
use crate::scan::{lemma_full_tolerance_hits, MatchResult};
use crate::{Point, Region};

verus! {

/// The first hit with the smallest tolerance value, over the whole scan.
fn best_hit(it: MatchResult) -> (r: Option<(u8, Point)>)
    requires
        it.wf(),
        it.consumed() == Seq::<Hit>::empty(),
    ensures
        r is None <==> it.search().hits().len() == 0,
        r is Some ==> hit_of(r->0) == first_min(it.search().hits()),
{
    let ghost s = it.search();
    let mut it = it;
    let mut best: Option<(u8, Point)> = None;
    loop
        invariant
            it.wf(),
            it.search() == s,
            it.consumed().len() == 0 <==> best is None,
            best is Some ==> hit_of(best->0) == first_min(it.consumed()),
        ensures
            best is None <==> s.hits().len() == 0,
            best is Some ==> hit_of(best->0) == first_min(s.hits()),
        decreases s.hits().len() - it.consumed().len(),
    {
        proof {
            it.lemma_consumed_prefix();
        }
        let ghost before = it.consumed();
        match it.next() {
            None => {
                break;
            },
            Some(e) => {
                proof {
                    it.lemma_consumed_prefix();
                    assert(it.consumed().drop_last() =~= before);
                }
                match best {
                    None => {
                        best = Some(e);
                    },
                    Some(b) => {
                        if e.0 < b.0 {
                            best = Some(e);
                        }
                    },
                }
            },
        }
    }
    best
}

/// Starts a scan that the caller knows can start.
pub(crate) fn start<'a>(screen: &'a Image, sample: &'a Image, region: Option<Region>, tolerance: u8) -> (r:
    MatchResult<'a>)
    requires
        search_for(screen@, sample@, region, tolerance as int).well_posed(),
        search_for(screen@, sample@, region, tolerance as int).fits(),
    ensures
        r.wf(),
        r.search() == search_for(screen@, sample@, region, tolerance as int),
        r.consumed() == Seq::<Hit>::empty(),
{
    let r = MatchResult::new(screen, sample, region, tolerance);
    r.unwrap()
}

/// The point of the best match of `sample` anywhere on `screen`: the first,
/// in scan order, of the accepted windows with the smallest tolerance value.
pub fn find_best(screen: &Image, sample: &Image, tolerance: u8) -> (r: Option<Point>)
    requires
        whole_search(screen@, sample@, tolerance as int).well_posed(),
        whole_search(screen@, sample@, tolerance as int).fits(),
    ensures
        point_opt(r) == best_point(whole_search(screen@, sample@, tolerance as int).hits()),
{
    let it = start(screen, sample, None, tolerance);
    match best_hit(it) {
        Some(e) => Some(e.1),
        None => None,
    }
}

/// The best match and its tolerance value: every window is accepted, so this
/// is the window that differs least from the sample.
pub fn get_tolerance(screen: &Image, sample: &Image) -> (r: (u8, Point))
    requires
        whole_search(screen@, sample@, 255).well_posed(),
        whole_search(screen@, sample@, 255).fits(),
    ensures
        whole_search(screen@, sample@, 255).hits().len() > 0,
        hit_of(r) == first_min(whole_search(screen@, sample@, 255).hits()),
{
    let it = start(screen, sample, None, 255);
    proof {
        it.lemma_wf_search();
        lemma_full_tolerance_hits(it.search());
    }
    best_hit(it).unwrap()
}

/// The best match inside `region` and its tolerance value.
pub fn get_tolerance_in_region(screen: &Image, sample: &Image, region: Region) -> (r: (u8, Point))
    requires
        region_search(screen@, sample@, region, 255).well_posed(),
        region_search(screen@, sample@, region, 255).fits(),
    ensures
        region_search(screen@, sample@, region, 255).hits().len() > 0,
        hit_of(r) == first_min(region_search(screen@, sample@, region, 255).hits()),
{
    let it = start(screen, sample, Some(region), 255);
    proof {
        it.lemma_wf_search();
        lemma_full_tolerance_hits(it.search());
    }
    best_hit(it).unwrap()
}

/// Entry `n` of the merged matches ranked by tolerance value, then position.
pub fn get_nth_tolerance(screen: &Image, sample: &Image, n: usize) -> (r: (u8, Point))
    requires
        whole_search(screen@, sample@, 255).well_posed(),
        whole_search(screen@, sample@, 255).fits(),
        n < whole_search(screen@, sample@, 255).clusters().len(),
    ensures
        hit_of(r) == whole_search(screen@, sample@, 255).ranked()[n as int],
{
    let results = start(screen, sample, None, 255).filter();
    let ranked = rank(&results);
    proof {
        law_ranked_sorted(whole_search(screen@, sample@, 255));
    }
    ranked[n]
}

/// The merged matches inside `region`, ranked by tolerance value, then position.
pub fn ranked_in_region(screen: &Image, sample: &Image, region: Region) -> (r: Vec<(u8, Point)>)
    requires
        region_search(screen@, sample@, region, 255).well_posed(),
        region_search(screen@, sample@, region, 255).fits(),
    ensures
        hits_of(r@) == region_search(screen@, sample@, region, 255).ranked(),
{
    let results = start(screen, sample, Some(region), 255).filter();
    rank(&results)
}

/// Entry `n` of the merged matches inside `region`, ranked by tolerance
/// value, then position.
pub fn get_nth_tolerance_in_region(screen: &Image, sample: &Image, region: Region, n: usize) -> (r:
    (u8, Point))
    requires
        region_search(screen@, sample@, region, 255).well_posed(),
        region_search(screen@, sample@, region, 255).fits(),
        n < region_search(screen@, sample@, region, 255).clusters().len(),
    ensures
        hit_of(r) == region_search(screen@, sample@, region, 255).ranked()[n as int],
{
    let ranked = ranked_in_region(screen, sample, region);
    proof {
        law_ranked_sorted(region_search(screen@, sample@, region, 255));
    }
    ranked[n]
}

/// The rectangle covered by the sample at its best match.
pub fn get_region(screen: &Image, sample: &Image) -> (r: Region)
    requires
        whole_search(screen@, sample@, 255).well_posed(),
        whole_search(screen@, sample@, 255).fits(),
        screen@.channels == sample@.channels || first_min(whole_search(screen@, sample@, 255).hits()).1
            + sample@.width <= u16::MAX,
    ensures
        ({
            let b = first_min(whole_search(screen@, sample@, 255).hits());
            &&& r[0][0] == b.1
            &&& r[0][1] == b.2
            &&& r[1][0] == b.1 + sample@.width
            &&& r[1][1] == b.2 + sample@.height
        }),
{
    let it = start(screen, sample, None, 255);
    proof {
        it.lemma_wf_search();
        let s = it.search();
        lemma_full_tolerance_hits(s);
        law_hits_inside(s);
        law_first_min(s.hits());
        let b = first_min(s.hits());
        assert(s.hits().contains(b));
        crate::scan::lemma_geometry(s);
        if screen@.channels == sample@.channels {
            assert(b.1 + sample@.width <= screen@.width) by (nonlinear_arith)
                requires
                    b.1 * screen@.channels + sample@.width * screen@.channels <= screen@.width
                        * screen@.channels,
                    screen@.channels >= 1,
            ;
        }
    }
    let best = best_hit(it).unwrap();
    assert(hit_of(best) == first_min(whole_search(screen@, sample@, 255).hits()));
    let x = best.1[0];
    let y = best.1[1];
    let dims = sample.dimensions();
    assert(x + dims[0] <= u16::MAX);
    [[x, y], [x + dims[0], y + dims[1]]]
}

/// The point of the best match inside `region`.
pub fn find_in_region(screen: &Image, sample: &Image, region: Region, tolerance: u8) -> (r: Option<
    Point,
>)
    requires
        region_search(screen@, sample@, region, tolerance as int).well_posed(),
        region_search(screen@, sample@, region, tolerance as int).fits(),
    ensures
        point_opt(r) == best_point(region_search(screen@, sample@, region, tolerance as int).hits()),
{
    let it = start(screen, sample, Some(region), tolerance);
    match best_hit(it) {
        Some(e) => Some(e.1),
        None => None,
    }
}

/// The point of entry `n` of the merged matches; `None` when there is no such
/// entry or the sample is larger than the screen.
pub fn find_nth(screen: &Image, sample: &Image, tolerance: u8, n: usize) -> (r: Option<Point>)
    requires
        whole_search(screen@, sample@, tolerance as int).well_posed(),
    ensures
        ({
            let s = whole_search(screen@, sample@, tolerance as int);
            point_opt(r) == if s.fits() {
                nth_point(s.clusters(), n as int)
            } else {
                None
            }
        }),
{
    let it = match MatchResult::new(screen, sample, None, tolerance) {
        Ok(it) => it,
        Err(_) => {
            return None;
        },
    };
    let results = it.filter();
    if n < results.len() {
        Some(results[n].1)
    } else {
        None
    }
}

/// The point of entry `n` of the merged matches inside `region`.
pub fn find_nth_in_region(
    screen: &Image,
    sample: &Image,
    region: Region,
    tolerance: u8,
    n: usize,
) -> (r: Option<Point>)
    requires
        region_search(screen@, sample@, region, tolerance as int).well_posed(),
        region_search(screen@, sample@, region, tolerance as int).fits(),
    ensures
        point_opt(r) == nth_point(
            region_search(screen@, sample@, region, tolerance as int).clusters(),
            n as int,
        ),
{
    let results = start(screen, sample, Some(region), tolerance).filter();
    if n < results.len() {
        Some(results[n].1)
    } else {
        None
    }
}

/// Number of merged matches.
pub fn count(screen: &Image, sample: &Image, tolerance: u8) -> (r: usize)
    requires
        whole_search(screen@, sample@, tolerance as int).well_posed(),
        whole_search(screen@, sample@, tolerance as int).fits(),
    ensures
        r == whole_search(screen@, sample@, tolerance as int).clusters().len(),
{
    start(screen, sample, None, tolerance).filter().len()
}

/// Number of merged matches inside `region`.
pub fn count_in_region(screen: &Image, sample: &Image, region: Region, tolerance: u8) -> (r: usize)
    requires
        region_search(screen@, sample@, region, tolerance as int).well_posed(),
        region_search(screen@, sample@, region, tolerance as int).fits(),
    ensures
        r == region_search(screen@, sample@, region, tolerance as int).clusters().len(),
{
    start(screen, sample, Some(region), tolerance).filter().len()
}

/// The points of the merged matches, in the order they were found.
fn points(results: &Vec<(u8, Point)>) -> (r: Vec<Point>)
    ensures
        points_of(r@) == points_of_hits(hits_of(results@)),
{
    let mut out: Vec<Point> = Vec::new();
    let mut i: usize = 0;
    while i < results.len()
        invariant
            0 <= i <= results.len(),
            points_of(out@) =~= points_of_hits(hits_of(results@)).take(i as int),
        decreases results.len() - i,
    {
        proof {
            let all = points_of_hits(hits_of(results@));
            assert(all.take(i + 1) =~= all.take(i as int).push(point_of(results@[i as int].1)));
        }
        out.push(results[i].1);
        i = i + 1;
    }
    out
}

/// The points of all merged matches.
pub fn find_all(screen: &Image, sample: &Image, tolerance: u8) -> (r: Vec<Point>)
    requires
        whole_search(screen@, sample@, tolerance as int).well_posed(),
        whole_search(screen@, sample@, tolerance as int).fits(),
    ensures
        points_of(r@) == points_of_hits(whole_search(screen@, sample@, tolerance as int).clusters()),
{
    let results = start(screen, sample, None, tolerance).filter();
    points(&results)
}

/// The points of all merged matches inside `region`.
pub fn find_all_in_region(screen: &Image, sample: &Image, region: Region, tolerance: u8) -> (r: Vec<
    Point,
>)
    requires
        region_search(screen@, sample@, region, tolerance as int).well_posed(),
        region_search(screen@, sample@, region, tolerance as int).fits(),
    ensures
        points_of(r@) == points_of_hits(
            region_search(screen@, sample@, region, tolerance as int).clusters(),
        ),
{
    let results = start(screen, sample, Some(region), tolerance).filter();
    points(&results)
}

/// The sample occurs at `coords`, compared without row sampling.
pub fn matches_at(screen: &Image, sample: &Image, coords: Point, tolerance: u8) -> (r: bool)
    requires
        at_well_posed(screen@, sample@, coords[0] as int, coords[1] as int, tolerance as int),
    ensures
        r == (at_diff(screen@, sample@, coords[0] as int, coords[1] as int) <= at_threshold(
            sample@,
            tolerance as int,
        )),
{
    compare::match_at(screen, sample, coords, tolerance)
}

/// The sample occurs somewhere inside `region`.
pub fn matches_in_region(screen: &Image, sample: &Image, region: Region, tolerance: u8) -> (r:
    bool)
    requires
        region_search(screen@, sample@, region, tolerance as int).well_posed(),
        region_search(screen@, sample@, region, tolerance as int).fits(),
    ensures
        r == (region_search(screen@, sample@, region, tolerance as int).hits().len() > 0),
{
    let mut it = start(screen, sample, Some(region), tolerance);
    let r = it.next();
    proof {
        it.lemma_consumed_prefix();
    }
    r.is_some()
}


/// Whether a search with these arguments is defined, that is whether the
/// search functions accept them (those that also need the region to fit test
/// `fits` apart).
pub fn search_defined(screen: &Image, sample: &Image, region: Option<Region>, tolerance: u8) -> (r:
    bool)
    ensures
        r == search_for(screen@, sample@, region, tolerance as int).well_posed(),
{
    let ghost s = search_for(screen@, sample@, region, tolerance as int);
    let screen_width = screen.width();
    let screen_height = screen.height();
    let sample_width = sample.width();
    let sample_height = sample.height();
    let channels = screen.channels();
    let sample_row_len = sample.row_len();
    let (x0, y0, x1, y1) = match region {
        Some(r) => (r[0][0], r[0][1], r[1][0], r[1][1]),
        None => (0u16, 0u16, screen_width, screen_height),
    };
    if x0 > x1 || y0 > y1 {
        return false;
    }
    let w = x1 - x0;
    let h = y1 - y0;
    if w < sample_width || h < sample_height || x1 > screen_width || y1 > screen_height {
        return true;
    }
    proof {
        crate::arith::lemma_mul_le(w as int, screen_width as int, channels as int);
    }
    (w as u32) * (channels as u32) >= sample_row_len as u32 && sample_row_len >= 1
        && sample_height >= 1
}
} // verus!
