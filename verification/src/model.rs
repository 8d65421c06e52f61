//! Mathematical model of template matching: images as byte sequences, the
//! per-window difference sums, the ordered list of hits that a scan reports,
//! the clustering of nearby hits, and the orders used to rank them.
use vstd::prelude::*;

verus! {

/// A reported match as plain numbers: (tolerance value, x, y).
pub type Hit = (int, int, int);

/// The abstract content of an image: its raw row-major bytes and its geometry.
pub struct ImageModel {
    pub bytes: Seq<u8>,
    pub width: int,
    pub height: int,
    pub channels: int,
}

impl ImageModel {
    /// Number of bytes in one row.
    pub open spec fn row_len(self) -> int {
        self.width * self.channels
    }

    /// What every constructed image satisfies.
    pub open spec fn well_formed(self) -> bool {
        &&& 0 <= self.width <= u16::MAX
        &&& 0 <= self.height <= u16::MAX
        &&& 0 <= self.channels <= u16::MAX
        &&& self.row_len() <= u16::MAX
        &&& self.bytes.len() == self.row_len() * self.height
        &&& self.bytes.len() <= u32::MAX
    }
}

pub open spec fn abs_diff(a: u8, b: u8) -> int {
    if a >= b {
        a - b
    } else {
        b - a
    }
}

pub open spec fn int_abs(a: int) -> int {
    if a >= 0 {
        a
    } else {
        -a
    }
}

/// Sum of `|a[ia + i] - b[ib + i]|` over `i < n`.
pub open spec fn span_diff(a: Seq<u8>, ia: int, b: Seq<u8>, ib: int, n: nat) -> int
    decreases n,
{
    if n == 0 {
        0
    } else {
        span_diff(a, ia, b, ib, (n - 1) as nat) + abs_diff(a[ia + n - 1], b[ib + n - 1])
    }
}

/// `s` is the integer square root of `n`.
pub open spec fn is_isqrt(n: int, s: int) -> bool {
    0 <= s && s * s <= n && n < (s + 1) * (s + 1)
}

/// The integer square root (floor of the real square root).
pub open spec fn isqrt(n: int) -> int {
    choose|s: int| is_isqrt(n, s)
}

/// A sliding-window search of `sample` over the area `[x0, x1) x [y0, y1)` of
/// `screen`, accepting windows whose difference sum is at most
/// `tolerance * pixels()`.
pub struct Search {
    pub screen: ImageModel,
    pub sample: ImageModel,
    pub x0: int,
    pub y0: int,
    pub x1: int,
    pub y1: int,
    pub tolerance: int,
}

/// A search over the whole screen.
pub open spec fn whole_search(screen: ImageModel, sample: ImageModel, tolerance: int) -> Search {
    Search { screen, sample, x0: 0, y0: 0, x1: screen.width, y1: screen.height, tolerance }
}

/// A search over the region `[[x0, y0], [x1, y1]]` of the screen.
pub open spec fn region_search(
    screen: ImageModel,
    sample: ImageModel,
    region: [[u16; 2]; 2],
    tolerance: int,
) -> Search {
    Search {
        screen,
        sample,
        x0: region[0][0] as int,
        y0: region[0][1] as int,
        x1: region[1][0] as int,
        y1: region[1][1] as int,
        tolerance,
    }
}

/// The search that a call with an optional region performs.
pub open spec fn search_for(
    screen: ImageModel,
    sample: ImageModel,
    region: Option<[[u16; 2]; 2]>,
    tolerance: int,
) -> Search {
    match region {
        Some(r) => region_search(screen, sample, r, tolerance),
        None => whole_search(screen, sample, tolerance),
    }
}

/// `a` is a prefix of `b`.
pub open spec fn prefix_of(a: Seq<Hit>, b: Seq<Hit>) -> bool {
    a.len() <= b.len() && forall|i: int| 0 <= i < a.len() ==> a[i] == b[i]
}

impl Search {
    pub open spec fn with_tolerance(self, tolerance: int) -> Search {
        Search { tolerance, ..self }
    }

    /// The region is at least as large as the sample.
    pub open spec fn large_enough(self) -> bool {
        self.x1 - self.x0 >= self.sample.width && self.y1 - self.y0 >= self.sample.height
    }

    /// The region lies inside the screen.
    pub open spec fn inside_screen(self) -> bool {
        self.x1 <= self.screen.width && self.y1 <= self.screen.height
    }

    /// The search can start: the region is large enough and inside the screen.
    pub open spec fn fits(self) -> bool {
        self.large_enough() && self.inside_screen()
    }

    /// The inputs on which a search is defined (outside them the scan would
    /// fail on an arithmetic or slicing error).
    pub open spec fn well_posed(self) -> bool {
        &&& 0 <= self.x0 <= self.x1
        &&& 0 <= self.y0 <= self.y1
        &&& 0 <= self.tolerance <= 255
        &&& self.fits() ==> {
            &&& (self.x1 - self.x0) * self.screen.channels >= self.sample.row_len()
            &&& self.sample.row_len() >= 1
            &&& self.sample.height >= 1
        }
    }

    /// Distance between two sampled sample rows.
    pub open spec fn step(self) -> int {
        isqrt(self.sample.height)
    }

    /// Number of sample rows compared: rows `0, step, 2 * step, ...` below the height.
    pub open spec fn sampled_rows(self) -> int {
        (self.sample.height + self.step() - 1) / self.step()
    }

    /// Bytes compared in each sampled row: the whole row.
    pub open spec fn row_bytes(self) -> int {
        self.sample.row_len()
    }

    /// Number of compared bytes per window.
    pub open spec fn pixels(self) -> int {
        self.sampled_rows() * self.row_bytes()
    }

    /// Largest accepted difference sum.
    pub open spec fn threshold(self) -> int {
        self.tolerance * self.pixels()
    }

    /// Largest x offset (in pixels) of a window inside the region.
    pub open spec fn last_x(self) -> int {
        ((self.x1 - self.x0) * self.screen.channels - self.sample.row_len()) / self.screen.channels
    }

    /// Largest y offset of a window inside the region.
    pub open spec fn last_y(self) -> int {
        (self.y1 - self.y0) - self.sample.height
    }

    /// Screen byte index where row `k` of the window at offset `(px, py)` starts.
    pub open spec fn window_row_start(self, px: int, py: int, k: int) -> int {
        (self.y0 + py + k * self.step()) * self.screen.row_len() + (self.x0 + px)
            * self.screen.channels
    }

    /// Sample byte index where sampled row `k` starts.
    pub open spec fn sample_row_start(self, k: int) -> int {
        k * self.step() * self.sample.row_len()
    }

    /// Difference of the first `n` sampled rows of the window at `(px, py)`.
    pub open spec fn rows_diff(self, px: int, py: int, n: nat) -> int
        decreases n,
    {
        if n == 0 {
            0
        } else {
            self.rows_diff(px, py, (n - 1) as nat) + span_diff(
                self.screen.bytes,
                self.window_row_start(px, py, n - 1),
                self.sample.bytes,
                self.sample_row_start(n - 1),
                self.row_bytes() as nat,
            )
        }
    }

    /// Difference sum of the window at offset `(px, py)`.
    pub open spec fn window_diff(self, px: int, py: int) -> int {
        self.rows_diff(px, py, self.sampled_rows() as nat)
    }

    /// The window at `(px, py)` is accepted.
    pub open spec fn accepts(self, px: int, py: int) -> bool {
        self.window_diff(px, py) <= self.threshold()
    }

    /// What is reported for the window at `(px, py)`.
    pub open spec fn hit(self, px: int, py: int) -> Hit {
        (self.window_diff(px, py) / self.pixels(), self.x0 + px, self.y0 + py)
    }

    /// Accepted windows of row `py` with x offset below `n`, left to right.
    pub open spec fn row_hits(self, py: int, n: nat) -> Seq<Hit>
        decreases n,
    {
        if n == 0 {
            seq![]
        } else {
            let prev = self.row_hits(py, (n - 1) as nat);
            if self.accepts(n - 1, py) {
                prev.push(self.hit(n - 1, py))
            } else {
                prev
            }
        }
    }

    /// Accepted windows of the rows below `rows`, row by row.
    pub open spec fn hits_before(self, rows: nat) -> Seq<Hit>
        decreases rows,
    {
        if rows == 0 {
            seq![]
        } else {
            self.hits_before((rows - 1) as nat) + self.row_hits(
                rows - 1,
                (self.last_x() + 1) as nat,
            )
        }
    }

    /// Every accepted window, in scan order (top to bottom, left to right).
    pub open spec fn hits(self) -> Seq<Hit> {
        self.hits_before((self.last_y() + 1) as nat)
    }

    /// Hits reported before the scan position `(px, py)`.
    pub open spec fn hits_until(self, py: int, px: int) -> Seq<Hit> {
        self.hits_before(py as nat) + self.row_hits(py, px as nat)
    }

    /// Horizontal distance below which two hits are merged.
    pub open spec fn merge_width(self) -> int {
        self.sample.row_len() / self.screen.channels
    }

    /// The hits with nearby ones merged.
    pub open spec fn clusters(self) -> Seq<Hit> {
        clustered(self.hits(), self.merge_width(), self.sample.height)
    }

    /// The merged hits, sorted by tolerance value, then x, then y.
    pub open spec fn ranked(self) -> Seq<Hit> {
        self.clusters().sort_by(hit_order_fn())
    }
}

/// Two hits lie within one sample size of each other.
pub open spec fn near(a: Hit, b: Hit, w: int, h: int) -> bool {
    int_abs(a.1 - b.1) < w && int_abs(a.2 - b.2) < h
}

/// `i` is the first entry of `f` near `e`.
pub open spec fn first_near_at(f: Seq<Hit>, e: Hit, w: int, h: int, i: int) -> bool {
    &&& 0 <= i < f.len()
    &&& near(f[i], e, w, h)
    &&& forall|j: int| 0 <= j < i ==> !near(#[trigger] f[j], e, w, h)
}

/// Adds `e` to the merged list `f`: the first entry near `e` takes `e` when `e`
/// has a smaller tolerance value; with no entry near, `e` is appended.
pub open spec fn absorb(f: Seq<Hit>, e: Hit, w: int, h: int) -> Seq<Hit> {
    if exists|i: int| first_near_at(f, e, w, h, i) {
        let i = choose|i: int| first_near_at(f, e, w, h, i);
        if e.0 < f[i].0 {
            f.update(i, e)
        } else {
            f
        }
    } else {
        f.push(e)
    }
}

/// The hits merged one after another.
pub open spec fn clustered(hits: Seq<Hit>, w: int, h: int) -> Seq<Hit>
    decreases hits.len(),
{
    if hits.len() == 0 {
        seq![]
    } else {
        absorb(clustered(hits.drop_last(), w, h), hits.last(), w, h)
    }
}

/// The first hit with the smallest tolerance value (`hits` must be non-empty).
pub open spec fn first_min(hits: Seq<Hit>) -> Hit
    decreases hits.len(),
{
    if hits.len() <= 1 {
        hits[0]
    } else {
        let m = first_min(hits.drop_last());
        if hits.last().0 < m.0 {
            hits.last()
        } else {
            m
        }
    }
}

/// Lexicographic order on (tolerance value, x, y).
pub open spec fn hit_order(a: Hit, b: Hit) -> bool {
    a.0 < b.0 || (a.0 == b.0 && (a.1 < b.1 || (a.1 == b.1 && a.2 <= b.2)))
}

pub open spec fn hit_order_fn() -> spec_fn(Hit, Hit) -> bool {
    |a: Hit, b: Hit| hit_order(a, b)
}

/// A result element as plain numbers.
pub open spec fn hit_of(e: (u8, [u16; 2])) -> Hit {
    (e.0 as int, e.1[0] as int, e.1[1] as int)
}

/// Result elements as plain numbers.
pub open spec fn hits_of(v: Seq<(u8, [u16; 2])>) -> Seq<Hit> {
    v.map_values(|e: (u8, [u16; 2])| hit_of(e))
}

/// At most one entry is the first one near a hit.
pub proof fn lemma_first_near_unique(f: Seq<Hit>, e: Hit, w: int, h: int, i: int, j: int)
    requires
        first_near_at(f, e, w, h, i),
        first_near_at(f, e, w, h, j),
    ensures
        i == j,
{
    if i < j {
        assert(!near(f[i], e, w, h));
    } else if j < i {
        assert(!near(f[j], e, w, h));
    }
}

/// The point of the first hit with the smallest tolerance value, if any.
pub open spec fn best_point(hits: Seq<Hit>) -> Option<(int, int)> {
    if hits.len() == 0 {
        None
    } else {
        Some(point_of_hit(first_min(hits)))
    }
}

/// The point of entry `n`, if there is one.
pub open spec fn nth_point(hits: Seq<Hit>, n: int) -> Option<(int, int)> {
    if 0 <= n < hits.len() {
        Some(point_of_hit(hits[n]))
    } else {
        None
    }
}

/// An optional point as plain numbers.
pub open spec fn point_opt(r: Option<[u16; 2]>) -> Option<(int, int)> {
    match r {
        Some(p) => Some(point_of(p)),
        None => None,
    }
}

/// Points as plain numbers.
pub open spec fn points_of(v: Seq<[u16; 2]>) -> Seq<(int, int)> {
    v.map_values(|p: [u16; 2]| point_of(p))
}

/// The points of hits.
pub open spec fn points_of_hits(hits: Seq<Hit>) -> Seq<(int, int)> {
    hits.map_values(|h: Hit| point_of_hit(h))
}

/// The point of a hit.
pub open spec fn point_of_hit(h: Hit) -> (int, int) {
    (h.1, h.2)
}

/// A point as plain numbers.
pub open spec fn point_of(p: [u16; 2]) -> (int, int) {
    (p[0] as int, p[1] as int)
}

/// Difference sum of the first `n` bytes when the window at `(x, y)` (rows of
/// `sample.row_len()` bytes) is laid out row after row and compared with the
/// sample buffer.
pub open spec fn flat_diff(screen: ImageModel, sample: ImageModel, x: int, y: int, n: nat) -> int
    decreases n,
{
    if n == 0 {
        0
    } else {
        let i = n - 1;
        let rl = sample.row_len();
        flat_diff(screen, sample, x, y, (n - 1) as nat) + abs_diff(
            screen.bytes[(y + i / rl) * screen.row_len() + x * screen.channels + i % rl],
            sample.bytes[i],
        )
    }
}

/// Difference sum of the window at `(x, y)` over every sample byte, compared
/// without row sampling.
pub open spec fn at_diff(screen: ImageModel, sample: ImageModel, x: int, y: int) -> int {
    flat_diff(screen, sample, x, y, sample.bytes.len())
}

/// Largest accepted difference sum for a check at one position.
pub open spec fn at_threshold(sample: ImageModel, tolerance: int) -> int {
    tolerance * sample.bytes.len()
}

/// The inputs on which a check at one position is defined.
pub open spec fn at_well_posed(
    screen: ImageModel,
    sample: ImageModel,
    x: int,
    y: int,
    tolerance: int,
) -> bool {
    &&& screen.channels == sample.channels
    &&& screen.width >= sample.width
    &&& screen.height >= sample.height
    &&& screen.row_len() >= 1
    &&& x <= screen.width - sample.width
    &&& y <= screen.height - sample.height
    &&& at_threshold(sample, tolerance) <= u32::MAX
}

} // verus!
