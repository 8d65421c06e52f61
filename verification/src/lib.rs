//! Template matching on raw pixel buffers: find where a small sample image
//! occurs inside a larger screen image, within a per-byte tolerance.
use vstd::prelude::*;

mod arith;
mod compare;
pub mod image;
pub mod model;
pub mod laws;
mod rank;
mod scan;
mod search;

pub use compare::debug_match;
pub use image::Image;
pub use search::{
    count, count_in_region, find_all, find_all_in_region, find_best, find_in_region, find_nth,
    find_nth_in_region, get_nth_tolerance, get_nth_tolerance_in_region, get_region, get_tolerance,
    get_tolerance_in_region, matches_at, matches_in_region, ranked_in_region,
    search_defined,
};

verus! {

/// A pixel position `[x, y]`.
pub type Point = [u16; 2];

/// A rectangle `[[x0, y0], [x1, y1]]`, upper bounds excluded.
pub type Region = [Point; 2];

/// The sample occurs somewhere on the screen.
pub fn matches(screen: &Image, sample: &Image, tolerance: u8) -> (r: bool)
    requires
        model::whole_search(screen@, sample@, tolerance as int).well_posed(),
        model::whole_search(screen@, sample@, tolerance as int).fits(),
    ensures
        r == (model::whole_search(screen@, sample@, tolerance as int).hits().len() > 0),
{
    let mut it = search::start(screen, sample, None, tolerance);
    let r = it.next();
    proof {
        it.lemma_consumed_prefix();
    }
    r.is_some()
}

} // verus!
