//! The sliding-window scan: every window position of the region is compared
//! with the sampled sample rows, and accepted positions are reported in scan
//! order.
use vstd::prelude::*;

use crate::arith::{
    lemma_div_le, lemma_grid_index, lemma_mul_le, lemma_sampled_row_inside, lemma_sampled_rows_bounds,
    lemma_span_diff_bound, lemma_span_diff_mono,
};
use crate::compare::{abs_diff_u16, abs_diff_u8, isqrt_u16, CHUNK};
use crate::image::Image;
use crate::model::{
    clustered, first_near_at, hit_of, hits_of, is_isqrt, lemma_first_near_unique, near, prefix_of,
    search_for, span_diff, Hit, Search,
};
use crate::{Point, Region};

verus! {

/// Why a scan cannot start, with the numbers that describe it.
#[derive(Debug)]
pub enum ScanError {
    /// The region is smaller than the sample.
    RegionTooSmall {
        width: u16,
        height: u16,
        x0: u16,
        y0: u16,
        x1: u16,
        y1: u16,
        sample_width: u16,
        sample_height: u16,
    },
    /// The region reaches outside the screen.
    RegionOutsideScreen {
        screen_width: u16,
        screen_height: u16,
        x0: u16,
        y0: u16,
        x1: u16,
        y1: u16,
    },
}

/// What the error of a search that cannot start says of it.
pub open spec fn describes(e: ScanError, s: Search) -> bool {
    match e {
        ScanError::RegionTooSmall {
            width,
            height,
            x0,
            y0,
            x1,
            y1,
            sample_width,
            sample_height,
        } => {
            &&& !s.large_enough()
            &&& width == s.x1 - s.x0
            &&& height == s.y1 - s.y0
            &&& x0 == s.x0
            &&& y0 == s.y0
            &&& x1 == s.x1
            &&& y1 == s.y1
            &&& sample_width == s.sample.width
            &&& sample_height == s.sample.height
        },
        ScanError::RegionOutsideScreen { screen_width, screen_height, x0, y0, x1, y1 } => {
            &&& s.large_enough()
            &&& !s.inside_screen()
            &&& screen_width == s.screen.width
            &&& screen_height == s.screen.height
            &&& x0 == s.x0
            &&& y0 == s.y0
            &&& x1 == s.x1
            &&& y1 == s.y1
        },
    }
}

/// The geometry of a search that can start.
pub open spec fn scan_geometry(s: Search) -> bool {
    &&& s.screen.channels >= 1
    &&& s.sample.row_len() >= 1
    &&& s.step() >= 1
    &&& is_isqrt(s.sample.height, s.step())
    &&& 1 <= s.sampled_rows() <= s.sample.height
    &&& s.row_bytes() == s.sample.row_len()
    &&& 0 < s.pixels() <= s.sample.bytes.len()
    &&& s.threshold() <= u32::MAX
    &&& 0 <= s.last_x() <= s.x1 - s.x0
    &&& s.last_x() * s.screen.channels + s.sample.row_len() <= (s.x1 - s.x0) * s.screen.channels
    &&& 0 <= s.last_y()
    &&& s.x1 * s.screen.channels <= s.screen.row_len()
    &&& (s.x1 - s.x0) * s.screen.channels <= s.screen.row_len()
    &&& s.sample.row_len() * s.sample.height == s.sample.bytes.len()
    &&& s.sample.height * s.sample.row_len() == s.sample.bytes.len()
}

/// Every search that can start has this geometry; in particular its
/// threshold always fits in 32 bits, since at most 257 rows of at most
/// 65535 bytes are compared.
pub proof fn lemma_geometry(s: Search)
    requires
        s.well_posed(),
        s.fits(),
        s.screen.well_formed(),
        s.sample.well_formed(),
    ensures
        scan_geometry(s),
{
    let c = s.screen.channels;
    let rl = s.sample.row_len();
    let h = s.sample.height;
    let wr = s.x1 - s.x0;
    assert(c >= 1) by (nonlinear_arith)
        requires
            wr * c >= rl,
            rl >= 1,
            wr >= 0,
            c >= 0,
    ;
    lemma_isqrt_exists(h);
    let st = s.step();
    assert(is_isqrt(h, st));
    assert(1 <= st <= 255) by (nonlinear_arith)
        requires
            is_isqrt(h, st),
            1 <= h <= 0xffff,
    ;
    lemma_sampled_rows_bounds(h, st);
    let n = s.sampled_rows();
    assert(n <= 257) by (nonlinear_arith)
        requires
            is_isqrt(h, st),
            1 <= st <= 255,
            n == (h + st - 1) / st,
    ;
    assert(0 < n * rl <= h * rl) by (nonlinear_arith)
        requires
            1 <= n <= h,
            1 <= rl,
    ;
    assert(s.tolerance * (n * rl) <= 255 * 257 * 0xffff) by (nonlinear_arith)
        requires
            0 <= s.tolerance <= 255,
            1 <= n <= 257,
            1 <= rl <= 0xffff,
    ;
    assert(rl * h == h * rl) by (nonlinear_arith);
    let lx = s.last_x();
    assert(0 <= lx <= wr && lx * c + rl <= wr * c) by (nonlinear_arith)
        requires
            lx == (wr * c - rl) / c,
            c >= 1,
            wr * c >= rl,
            rl >= 0,
            wr >= 0,
    ;
    lemma_mul_le(s.x1, s.screen.width, c);
    lemma_mul_le(wr, s.x1, c);
}

/// The integer square root exists.
pub proof fn lemma_isqrt_exists(n: int)
    requires
        n >= 0,
    ensures
        exists|s: int| is_isqrt(n, s),
{
    lemma_isqrt_below(n, 0);
}

proof fn lemma_isqrt_below(n: int, s: int)
    requires
        0 <= s,
        s * s <= n,
    ensures
        exists|t: int| is_isqrt(n, t),
    decreases n - s * s,
{
    if n < (s + 1) * (s + 1) {
        assert(is_isqrt(n, s));
    } else {
        assert(s * s < (s + 1) * (s + 1)) by (nonlinear_arith)
            requires
                0 <= s,
        ;
        lemma_isqrt_below(n, s + 1);
    }
}

/// Every byte of a window lies inside the screen buffer.
pub proof fn lemma_window_index(s: Search, px: int, py: int, k: int, c: int)
    requires
        s.well_posed(),
        s.fits(),
        s.screen.well_formed(),
        s.sample.well_formed(),
        0 <= px <= s.last_x(),
        0 <= py <= s.last_y(),
        0 <= k < s.sampled_rows(),
        0 <= c < s.row_bytes(),
    ensures
        0 <= s.window_row_start(px, py, k),
        s.window_row_start(px, py, k) + c < s.screen.bytes.len(),
        s.y0 + py + k * s.step() < s.screen.height,
        (s.x0 + px) * s.screen.channels + c < s.screen.row_len(),
{
    lemma_geometry(s);
    let st = s.step();
    let h = s.sample.height;
    lemma_sampled_row_inside(k, h, st);
    let row = s.y0 + py + k * st;
    let cc = s.screen.channels;
    let col = (s.x0 + px) * cc + c;
    lemma_mul_le(px, s.last_x(), cc);
    assert((s.x0 + px) * cc == s.x0 * cc + px * cc) by (nonlinear_arith);
    assert(s.x0 * cc + (s.x1 - s.x0) * cc == s.x1 * cc) by (nonlinear_arith);
    assert(0 <= s.x0 * cc && 0 <= px * cc) by (nonlinear_arith)
        requires
            s.x0 >= 0,
            px >= 0,
            cc >= 0,
    ;
    lemma_grid_index(row, col, s.screen.row_len(), s.screen.height);
    assert(s.screen.row_len() * s.screen.height == s.screen.height * s.screen.row_len())
        by (nonlinear_arith);
}

/// Every compared byte of a sampled row lies inside the sample buffer.
pub proof fn lemma_sample_index(s: Search, k: int, c: int)
    requires
        s.well_posed(),
        s.fits(),
        s.screen.well_formed(),
        s.sample.well_formed(),
        0 <= k < s.sampled_rows(),
        0 <= c < s.row_bytes(),
    ensures
        0 <= s.sample_row_start(k),
        s.sample_row_start(k) + c < s.sample.bytes.len(),
{
    lemma_geometry(s);
    lemma_sampled_row_inside(k, s.sample.height, s.step());
    lemma_grid_index(k * s.step(), c, s.sample.row_len(), s.sample.height);
}

/// Window difference sums grow with the number of rows.
pub proof fn lemma_rows_diff_mono(s: Search, px: int, py: int, m: nat, n: nat)
    requires
        m <= n,
        s.row_bytes() >= 0,
    ensures
        0 <= s.rows_diff(px, py, m) <= s.rows_diff(px, py, n),
    decreases n,
{
    if n > 0 {
        lemma_span_diff_mono(
            s.screen.bytes,
            s.window_row_start(px, py, n - 1),
            s.sample.bytes,
            s.sample_row_start(n - 1),
            0,
            s.row_bytes() as nat,
        );
        if m < n {
            lemma_rows_diff_mono(s, px, py, m, (n - 1) as nat);
        } else {
            lemma_rows_diff_mono(s, px, py, (n - 1) as nat, (n - 1) as nat);
        }
    }
}

/// A window differs from the sample by at most 255 per compared byte.
pub proof fn lemma_rows_diff_bound(s: Search, px: int, py: int, n: nat)
    requires
        s.row_bytes() >= 0,
    ensures
        s.rows_diff(px, py, n) <= 255 * (n * s.row_bytes()),
    decreases n,
{
    if n > 0 {
        lemma_rows_diff_bound(s, px, py, (n - 1) as nat);
        lemma_span_diff_bound(
            s.screen.bytes,
            s.window_row_start(px, py, n - 1),
            s.sample.bytes,
            s.sample_row_start(n - 1),
            s.row_bytes() as nat,
        );
        let rb = s.row_bytes();
        assert(255 * ((n - 1) * rb) + 255 * rb == 255 * (n * rb)) by (nonlinear_arith);
    }
}

/// With the largest tolerance every window is accepted, so a search that can
/// start reports at least one hit.
pub proof fn lemma_full_tolerance_hits(s: Search)
    requires
        s.well_posed(),
        s.fits(),
        s.screen.well_formed(),
        s.sample.well_formed(),
        s.tolerance == 255,
    ensures
        forall|px: int, py: int| #[trigger] s.accepts(px, py),
        s.hits().len() > 0,
{
    lemma_geometry(s);
    assert forall|px: int, py: int| #[trigger] s.accepts(px, py) by {
        lemma_rows_diff_bound(s, px, py, s.sampled_rows() as nat);
    }
    assert(s.row_hits(0, 1) == s.row_hits(0, 0).push(s.hit(0, 0)));
    lemma_row_hits_prefix(s, 0, 1, (s.last_x() + 1) as nat);
    assert(s.hits_before(0) == Seq::<Hit>::empty());
    assert(s.hits_before(1) == s.hits_before(0) + s.row_hits(0, (s.last_x() + 1) as nat));
    assert(s.hits_before(1) =~= s.row_hits(0, (s.last_x() + 1) as nat));
    lemma_hits_before_prefix(s, 1, (s.last_y() + 1) as nat);
}

/// Hits of a shorter stretch of a row come first among those of a longer one.
pub proof fn lemma_row_hits_prefix(s: Search, py: int, m: nat, n: nat)
    requires
        m <= n,
    ensures
        prefix_of(s.row_hits(py, m), s.row_hits(py, n)),
    decreases n,
{
    if m < n {
        lemma_row_hits_prefix(s, py, m, (n - 1) as nat);
    }
}

/// Hits of fewer rows come first among those of more rows.
pub proof fn lemma_hits_before_prefix(s: Search, a: nat, b: nat)
    requires
        a <= b,
    ensures
        prefix_of(s.hits_before(a), s.hits_before(b)),
    decreases b,
{
    if a < b {
        lemma_hits_before_prefix(s, a, (b - 1) as nat);
    }
}

/// The hits before a scan position come first among all hits.
pub proof fn lemma_hits_until_prefix(s: Search, py: int, px: int)
    requires
        0 <= py <= s.last_y() + 1,
        0 <= px <= s.last_x() + 1,
        py == s.last_y() + 1 ==> px == 0,
    ensures
        prefix_of(s.hits_until(py, px), s.hits()),
{
    if py <= s.last_y() {
        lemma_row_hits_prefix(s, py, px as nat, (s.last_x() + 1) as nat);
        lemma_hits_before_prefix(s, (py + 1) as nat, (s.last_y() + 1) as nat);
        assert(s.hits_before((py + 1) as nat) == s.hits_before(py as nat) + s.row_hits(
            py,
            (s.last_x() + 1) as nat,
        ));
    } else {
        assert(s.hits_until(py, px) =~= s.hits());
    }
}

/// The scan state: the window position to examine next, and what every
/// window is compared with.
pub struct MatchResult<'a> {
    screen: &'a Image,
    sample_rows: Vec<Vec<u8>>,
    sample_row_len: usize,
    sample_height: usize,
    row_bytes: usize,
    step: usize,
    screen_row_len: usize,
    channels: usize,
    x0: usize,
    y0: usize,
    last_x: usize,
    last_y: usize,
    x_position: usize,
    y_position: usize,
    threshold: u32,
    pixels: u32,
    search: Ghost<Search>,
}

impl<'a> MatchResult<'a> {
    /// The search this scan performs.
    pub closed spec fn search(&self) -> Search {
        self.search@
    }

    /// Hits already reported.
    pub closed spec fn consumed(&self) -> Seq<Hit> {
        self.search@.hits_until(self.y_position as int, self.x_position as int)
    }

    pub closed spec fn wf(&self) -> bool {
        let s = self.search@;
        &&& s.well_posed()
        &&& s.fits()
        &&& s.screen.well_formed()
        &&& s.sample.well_formed()
        &&& scan_geometry(s)
        &&& self.screen@ == s.screen
        &&& self.sample_row_len == s.sample.row_len()
        &&& self.sample_height == s.sample.height
        &&& self.step == s.step()
        &&& self.row_bytes == s.row_bytes()
        &&& self.sample_rows@.len() == s.sampled_rows()
        &&& forall|k: int|
            0 <= k < self.sample_rows@.len() ==> (#[trigger] self.sample_rows@[k])@.len()
                == self.row_bytes
        &&& forall|k: int, c: int|
            0 <= k < self.sample_rows@.len() && 0 <= c < self.row_bytes ==> #[trigger] (self.sample_rows@[k]@[c]) == s.sample.bytes[s.sample_row_start(k) + c]
        &&& self.screen_row_len == s.screen.row_len()
        &&& self.channels == s.screen.channels
        &&& self.x0 == s.x0
        &&& self.y0 == s.y0
        &&& self.last_x == s.last_x()
        &&& self.last_y == s.last_y()
        &&& self.threshold == s.threshold()
        &&& self.pixels == s.pixels()
        &&& self.y_position <= self.last_y + 1
        &&& self.x_position <= self.last_x + 1
        &&& self.y_position == self.last_y + 1 ==> self.x_position == 0
    }

    /// What a scan in progress knows of its search.
    pub proof fn lemma_wf_search(&self)
        requires
            self.wf(),
        ensures
            self.search().well_posed(),
            self.search().fits(),
            self.search().screen.well_formed(),
            self.search().sample.well_formed(),
    {
    }

    /// The reported hits come first among all hits.
    pub proof fn lemma_consumed_prefix(&self)
        requires
            self.wf(),
        ensures
            prefix_of(self.consumed(), self.search().hits()),
    {
        lemma_hits_until_prefix(self.search@, self.y_position as int, self.x_position as int);
    }

    /// Prepares the scan of `sample` over `region` of `screen` (the whole
    /// screen when `region` is `None`).
    pub fn new(screen: &'a Image, sample: &'a Image, region: Option<Region>, tolerance: u8) -> (r:
        Result<MatchResult<'a>, ScanError>)
        requires
            search_for(screen@, sample@, region, tolerance as int).well_posed(),
        ensures
            ({
                let s = search_for(screen@, sample@, region, tolerance as int);
                &&& r is Ok <==> s.fits()
                &&& r is Ok ==> r->Ok_0.wf() && r->Ok_0.search() == s && r->Ok_0.consumed()
                    == Seq::<Hit>::empty()
                &&& r is Err ==> describes(r->Err_0, s)
            }),
    {
        let ghost s = search_for(screen@, sample@, region, tolerance as int);
        let screen_width = screen.width();
        let screen_height = screen.height();
        let sample_width = sample.width();
        let sample_height = sample.height();
        let channels = screen.channels();
        let sample_row_len = sample.row_len();
        let (x0, y0, x1, y1) = match region {
            Some(r) => (r[0][0], r[0][1], r[1][0], r[1][1]),
            None => (0u16, 0u16, screen_width, screen_height),
        };
        assert(x0 == s.x0 && y0 == s.y0 && x1 == s.x1 && y1 == s.y1);
        let w = x1 - x0;
        let h = y1 - y0;
        if w < sample_width || h < sample_height {
            return Err(
                ScanError::RegionTooSmall {
                    width: w,
                    height: h,
                    x0,
                    y0,
                    x1,
                    y1,
                    sample_width,
                    sample_height,
                },
            );
        }
        if x1 > screen_width || y1 > screen_height {
            return Err(
                ScanError::RegionOutsideScreen { screen_width, screen_height, x0, y0, x1, y1 },
            );
        }
        proof {
            lemma_geometry(s);
        }
        let step = isqrt_u16(sample_height) as usize;
        let sample_row_len = sample_row_len as usize;
        let sample_height = sample_height as usize;
        let channels = channels as usize;
        let row_bytes = sample_row_len;
        let n_rows = (sample_height + step - 1) / step;
        let sample_buf = sample.as_raw();
        let mut sample_rows: Vec<Vec<u8>> = Vec::new();
        let mut k: usize = 0;
        while k < n_rows
            invariant
                s.well_posed(),
                s.fits(),
                s.screen.well_formed(),
                s.sample.well_formed(),
                scan_geometry(s),
                sample_buf@ == s.sample.bytes,
                step == s.step(),
                sample_row_len == s.sample.row_len(),
                row_bytes == s.row_bytes(),
                n_rows == s.sampled_rows(),
                0 <= k <= n_rows,
                sample_rows@.len() == k,
                forall|j: int|
                    0 <= j < k ==> (#[trigger] sample_rows@[j])@.len() == row_bytes,
                forall|j: int, c: int|
                    0 <= j < k && 0 <= c < row_bytes ==> #[trigger] (sample_rows@[j]@[c])
                        == s.sample.bytes[s.sample_row_start(j) + c],
            decreases n_rows - k,
        {
            proof {
                lemma_sample_index(s, k as int, 0);
                lemma_sampled_row_inside(k as int, s.sample.height, step as int);
                lemma_mul_le(k as int * step as int, s.sample.height, sample_row_len as int);
            }
            let start = k * step * sample_row_len;
            let mut row: Vec<u8> = Vec::new();
            let mut c: usize = 0;
            while c < row_bytes
                invariant
                    s.well_posed(),
                    s.fits(),
                    s.screen.well_formed(),
                    s.sample.well_formed(),
                    sample_buf@ == s.sample.bytes,
                    row_bytes == s.row_bytes(),
                    n_rows == s.sampled_rows(),
                    0 <= k < n_rows,
                    start == s.sample_row_start(k as int),
                    0 <= c <= row_bytes,
                    row@.len() == c,
                    forall|j: int| 0 <= j < c ==> row@[j] == s.sample.bytes[start + j],
                decreases row_bytes - c,
            {
                proof {
                    lemma_sample_index(s, k as int, c as int);
                }
                row.push(sample_buf[start + c]);
                c = c + 1;
            }
            sample_rows.push(row);
            k = k + 1;
        }
        let pixels = (n_rows * row_bytes) as u32;
        let threshold = (tolerance as u32) * pixels;
        let region_row = w as usize * channels;
        assert(region_row == (s.x1 - s.x0) * s.screen.channels);
        let last_x = (region_row - sample_row_len) / channels;
        let last_y = (h - sample_height as u16) as usize;
        let ghost consumed_at_start = s.hits_until(0, 0);
        assert(consumed_at_start =~= Seq::<Hit>::empty());
        Ok(MatchResult {
            screen,
            sample_rows,
            sample_row_len,
            sample_height,
            row_bytes,
            step,
            screen_row_len: screen.row_len() as usize,
            channels,
            x0: x0 as usize,
            y0: y0 as usize,
            last_x,
            last_y,
            x_position: 0,
            y_position: 0,
            threshold,
            pixels,
            search: Ghost(s),
        })
    }
}


impl<'a> MatchResult<'a> {
    /// Difference sum of the window at `(px, py)`, summed chunk by chunk. The
    /// sum stops once it passes the threshold, so the result is exact only up
    /// to it.
    fn window_diff(&self, px: usize, py: usize) -> (d: u64)
        requires
            self.wf(),
            px <= self.search().last_x(),
            py <= self.search().last_y(),
        ensures
            d <= self.search().window_diff(px as int, py as int),
            (d <= self.search().threshold()) == self.search().accepts(px as int, py as int),
            d <= self.search().threshold() ==> d == self.search().window_diff(px as int, py as int),
    {
        let ghost s = self.search@;
        let buf = self.screen.as_raw();
        let threshold = self.threshold as u64;
        let n_rows = self.sample_rows.len();
        let mut acc: u64 = 0;
        let mut k: usize = 0;
        while k < n_rows
            invariant
                self.wf(),
                s == self.search@,
                buf@ == s.screen.bytes,
                threshold == s.threshold(),
                n_rows == s.sampled_rows(),
                px <= s.last_x(),
                py <= s.last_y(),
                0 <= k <= n_rows,
                acc == s.rows_diff(px as int, py as int, k as nat),
                acc <= threshold,
            decreases n_rows - k,
        {
            proof {
                lemma_window_index(s, px as int, py as int, k as int, 0);
                lemma_sampled_row_inside(k as int, s.sample.height, s.step());
            }
            let base = (self.y0 + py + k * self.step) * self.screen_row_len + (self.x0 + px)
                * self.channels;
            let sample_row = &self.sample_rows[k];
            let ghost before = acc as int;
            let mut c: usize = 0;
            while c < self.row_bytes
                invariant
                    self.wf(),
                    s == self.search@,
                    buf@ == s.screen.bytes,
                    threshold == s.threshold(),
                    n_rows == s.sampled_rows(),
                    px <= s.last_x(),
                    py <= s.last_y(),
                    0 <= k < n_rows,
                    base == s.window_row_start(px as int, py as int, k as int),
                    sample_row@ == self.sample_rows@[k as int]@,
                    before == s.rows_diff(px as int, py as int, k as nat),
                    0 <= c <= self.row_bytes,
                    acc == before + span_diff(
                        s.screen.bytes,
                        base as int,
                        s.sample.bytes,
                        s.sample_row_start(k as int),
                        c as nat,
                    ),
                    acc <= threshold + 255 * (c % 32),
                    c == self.row_bytes ==> acc <= threshold,
                decreases self.row_bytes - c,
            {
                proof {
                    lemma_window_index(s, px as int, py as int, k as int, c as int);
                    assert(sample_row@[c as int] == s.sample.bytes[s.sample_row_start(k as int)
                        + c]);
                }
                acc = acc + abs_diff_u8(buf[base + c], sample_row[c]) as u64;
                c = c + 1;
                if (c % CHUNK == 0 || c == self.row_bytes) && acc > threshold {
                    proof {
                        lemma_span_diff_mono(
                            s.screen.bytes,
                            base as int,
                            s.sample.bytes,
                            s.sample_row_start(k as int),
                            c as nat,
                            s.row_bytes() as nat,
                        );
                        lemma_rows_diff_mono(
                            s,
                            px as int,
                            py as int,
                            (k + 1) as nat,
                            s.sampled_rows() as nat,
                        );
                    }
                    return acc;
                }
            }
            k = k + 1;
        }
        proof {
            lemma_rows_diff_mono(s, px as int, py as int, k as nat, k as nat);
        }
        acc
    }
}

impl<'a> MatchResult<'a> {
    /// Reports the next accepted window in scan order, or `None` once every
    /// window has been examined.
    pub fn next(&mut self) -> (r: Option<(u8, Point)>)
        requires
            old(self).wf(),
        ensures
            final(self).wf(),
            final(self).search() == old(self).search(),
            r is Some ==> final(self).consumed() == old(self).consumed().push(hit_of(r->0)),
            r is None ==> final(self).consumed() == old(self).consumed() && old(self).consumed()
                == old(self).search().hits(),
    {
        let ghost s = self.search@;
        let ghost start = self.consumed();
        let last_x = self.last_x;
        let last_y = self.last_y;
        let mut py = self.y_position;
        let mut px = self.x_position;
        while py <= last_y
            invariant
                self.wf(),
                *self == *old(self),
                s == self.search@,
                start == old(self).consumed(),
                last_x == s.last_x(),
                last_y == s.last_y(),
                py <= last_y + 1,
                px <= last_x + 1,
                py == last_y + 1 ==> px == 0,
                s.hits_until(py as int, px as int) == start,
            decreases last_y + 1 - py,
        {
            while px <= last_x
                invariant
                    self.wf(),
                    *self == *old(self),
                    s == self.search@,
                    start == old(self).consumed(),
                    last_x == s.last_x(),
                    last_y == s.last_y(),
                    py <= last_y,
                    px <= last_x + 1,
                    s.hits_until(py as int, px as int) == start,
                decreases last_x + 1 - px,
            {
                let d = self.window_diff(px, py);
                let ghost prev = s.row_hits(py as int, px as nat);
                assert(s.row_hits(py as int, (px + 1) as nat) == if s.accepts(
                    px as int,
                    py as int,
                ) {
                    prev.push(s.hit(px as int, py as int))
                } else {
                    prev
                });
                if d <= self.threshold as u64 {
                    proof {
                        lemma_div_le(d as int, s.tolerance, s.pixels());
                    }
                    let diff = (d / self.pixels as u64) as u8;
                    let x = (self.x0 + px) as u16;
                    let y = (self.y0 + py) as u16;
                    self.x_position = px + 1;
                    self.y_position = py;
                    assert(s.hits_until(py as int, (px + 1) as int) =~= start.push(
                        s.hit(px as int, py as int),
                    ));
                    return Some((diff, [x, y]));
                }
                px = px + 1;
                assert(s.hits_until(py as int, px as int) =~= start);
            }
            assert(s.hits_until((py + 1) as int, 0) =~= s.hits_until(py as int, px as int));
            py = py + 1;
            px = 0;
        }
        self.y_position = py;
        self.x_position = 0;
        assert(s.hits_until(py as int, 0) =~= s.hits());
        None
    }
}

impl<'a> MatchResult<'a> {
    /// Runs the whole scan and merges nearby hits: each hit joins the first
    /// earlier entry within one sample size of it (taking its place when its
    /// tolerance value is smaller) or else becomes a new entry.
    pub fn filter(self) -> (f: Vec<(u8, Point)>)
        requires
            self.wf(),
            self.consumed() == Seq::<Hit>::empty(),
        ensures
            hits_of(f@) == self.search().clusters(),
    {
        let ghost s = self.search@;
        let ghost mw = s.merge_width();
        let ghost mh = s.sample.height;
        proof {
            lemma_geometry(s);
        }
        let w = (self.sample_row_len / self.channels) as u16;
        let h = self.sample_height as u16;
        let mut it = self;
        let mut filtered: Vec<(u8, Point)> = Vec::new();
        assert(hits_of(filtered@) =~= clustered(it.consumed(), mw, mh));
        loop
            invariant
                it.wf(),
                it.search() == s,
                mw == s.merge_width(),
                mh == s.sample.height,
                w == mw,
                h == mh,
                hits_of(filtered@) == clustered(it.consumed(), mw, mh),
            ensures
                hits_of(filtered@) == s.clusters(),
            decreases s.hits().len() - it.consumed().len(),
        {
            proof {
                it.lemma_consumed_prefix();
            }
            let ghost before = it.consumed();
            match it.next() {
                None => {
                    assert(it.consumed() == s.hits());
                    break;
                },
                Some(e) => {
                    proof {
                        it.lemma_consumed_prefix();
                    }
                    let ghost he = hit_of(e);
                    let ghost fv = hits_of(filtered@);
                    assert(it.consumed().drop_last() =~= before);
                    let n = filtered.len();
                    let mut i: usize = 0;
                    let mut found = false;
                    while !found && i < n
                        invariant
                            0 <= i <= n,
                            n == filtered@.len(),
                            fv == hits_of(filtered@),
                            w == mw,
                            h == mh,
                            he == hit_of(e),
                            found ==> i < n && first_near_at(fv, he, mw, mh, i as int),
                            !found ==> forall|j: int| 0 <= j < i ==> !near(#[trigger] fv[j], he, mw, mh),
                        decreases n - i + (if found { 0int } else { 1int }),
                    {
                        let cand = filtered[i];
                        assert(hit_of(cand) == fv[i as int]);
                        if abs_diff_u16(e.1[0], cand.1[0]) < w && abs_diff_u16(e.1[1], cand.1[1])
                            < h {
                            found = true;
                        } else {
                            i = i + 1;
                        }
                    }
                    if found {
                        proof {
                            let k = choose|k: int| first_near_at(fv, he, mw, mh, k);
                            lemma_first_near_unique(fv, he, mw, mh, k, i as int);
                        }
                        if e.0 < filtered[i].0 {
                            filtered.set(i, e);
                            assert(hits_of(filtered@) =~= fv.update(i as int, he));
                        }
                    } else {
                        assert(!exists|k: int| first_near_at(fv, he, mw, mh, k));
                        filtered.push(e);
                        assert(hits_of(filtered@) =~= fv.push(he));
                    }
                },
            }
        }
        filtered
    }
}
} // verus!
