//! Byte-level comparisons: absolute differences, integer square roots, the
//! check of one window position, and the per-byte differences of one chunk.
use vstd::prelude::*;

use crate::arith::{lemma_grid_index, lemma_isqrt_unique};
use crate::image::Image;
use crate::model::{
    abs_diff, at_diff, at_threshold, at_well_posed, flat_diff, int_abs, is_isqrt,
    isqrt, ImageModel,
};
use crate::Point;

verus! {

/// Number of bytes compared at once.
pub const CHUNK: usize = 32;

/// `|a - b|` of two bytes.
pub fn abs_diff_u8(a: u8, b: u8) -> (r: u8)
    ensures
        r == abs_diff(a, b),
{
    if a >= b {
        a - b
    } else {
        b - a
    }
}

/// `|a - b|` of two coordinates.
pub fn abs_diff_u16(a: u16, b: u16) -> (r: u16)
    ensures
        r == int_abs(a - b),
{
    if a >= b {
        a - b
    } else {
        b - a
    }
}

/// The integer square root of `n`.
pub fn isqrt_u16(n: u16) -> (s: u16)
    ensures
        s == isqrt(n as int),
        is_isqrt(n as int, s as int),
{
    let mut s: u32 = 0;
    while (s + 1) * (s + 1) <= n as u32
        invariant
            s * s <= n,
            s <= 255,
            (s + 1) * (s + 1) <= 65536,
        decreases 256 - s,
    {
        assert(s + 1 <= 255 && (s + 2) * (s + 2) <= 65536) by (nonlinear_arith)
            requires
                (s + 1) * (s + 1) <= n,
                n <= 0xffff,
                s <= 255,
        ;
        s = s + 1;
    }
    proof {
        lemma_isqrt_unique(n as int, s as int);
    }
    s as u16
}


/// Flattened difference sums grow with their length.
pub proof fn lemma_flat_diff_mono(
    screen: ImageModel,
    sample: ImageModel,
    x: int,
    y: int,
    m: nat,
    n: nat,
)
    requires
        m <= n,
    ensures
        0 <= flat_diff(screen, sample, x, y, m) <= flat_diff(screen, sample, x, y, n),
    decreases n,
{
    if m < n {
        lemma_flat_diff_mono(screen, sample, x, y, m, (n - 1) as nat);
    } else if n > 0 {
        lemma_flat_diff_mono(screen, sample, x, y, (n - 1) as nat, (n - 1) as nat);
    }
}

/// Byte `i` of the flattened window lies inside the screen buffer.
proof fn lemma_flat_index(screen: ImageModel, sample: ImageModel, x: int, y: int, i: int)
    requires
        screen.well_formed(),
        sample.well_formed(),
        screen.channels == sample.channels,
        0 <= x <= screen.width - sample.width,
        0 <= y <= screen.height - sample.height,
        0 <= i < sample.bytes.len(),
    ensures
        y + i / sample.row_len() < screen.height,
        0 <= (y + i / sample.row_len()) * screen.row_len() + x * screen.channels + i
            % sample.row_len() < screen.bytes.len(),
{
    let rl = sample.row_len();
    let c = screen.channels;
    assert(rl >= 1) by (nonlinear_arith)
        requires
            0 <= i < rl * sample.height,
            rl >= 0,
            sample.height >= 0,
    ;
    let q = i / rl;
    let r = i % rl;
    assert(0 <= q < sample.height && 0 <= r < rl) by (nonlinear_arith)
        requires
            0 <= i < rl * sample.height,
            rl >= 1,
            q == i / rl,
            r == i % rl,
    ;
    assert(x * c + rl <= screen.width * c && 0 <= x * c) by (nonlinear_arith)
        requires
            0 <= x <= screen.width - sample.width,
            rl == sample.width * c,
            c >= 0,
    ;
    lemma_grid_index(y + q, x * c + r, screen.row_len(), screen.height);
    assert(screen.row_len() * screen.height == screen.height * screen.row_len())
        by (nonlinear_arith);
}

/// Compares every sample byte with the window at `coords`, row by row and
/// without row sampling, and accepts when the difference sum stays within
/// `tolerance * sample length`. The sum is checked against the threshold after
/// every 32 bytes and stops once it passes it.
pub fn match_at(screen: &Image, sample: &Image, coords: Point, tolerance: u8) -> (r: bool)
    requires
        at_well_posed(screen@, sample@, coords[0] as int, coords[1] as int, tolerance as int),
    ensures
        r == (at_diff(screen@, sample@, coords[0] as int, coords[1] as int) <= at_threshold(
            sample@,
            tolerance as int,
        )),
{
    let ghost sc = screen@;
    let ghost sm = sample@;
    let ghost x = coords[0] as int;
    let ghost y = coords[1] as int;
    let buf = screen.as_raw();
    let sample_buf = sample.as_raw();
    let screen_row_len = screen.row_len() as usize;
    let channels = screen.channels() as usize;
    let sample_row_len = sample.row_len() as usize;
    let start_x = coords[0] as usize;
    let start_y = coords[1] as usize;
    let threshold = ((tolerance as u32) * (sample_buf.len() as u32)) as u64;
    let limit = sample_buf.len();
    let mut acc: u64 = 0;
    let mut i: usize = 0;
    while i < limit
        invariant
            sc == screen@,
            sm == sample@,
            sc.well_formed(),
            sm.well_formed(),
            at_well_posed(sc, sm, x, y, tolerance as int),
            buf@ == sc.bytes,
            sample_buf@ == sm.bytes,
            screen_row_len == sc.row_len(),
            channels == sc.channels,
            sample_row_len == sm.row_len(),
            start_x == x,
            start_y == y,
            x == coords[0] as int,
            y == coords[1] as int,
            threshold == at_threshold(sm, tolerance as int),
            limit == sm.bytes.len(),
            0 <= i <= limit,
            acc == flat_diff(sc, sm, x, y, i as nat),
            acc <= threshold + 255 * (i % 32),
        decreases limit - i,
    {
        proof {
            lemma_flat_index(sc, sm, x, y, i as int);
        }
        let row = start_y + i / sample_row_len;
        let col = start_x * channels + i % sample_row_len;
        proof {
            assert(0 <= row * screen_row_len) by (nonlinear_arith)
                requires
                    row >= 0,
                    screen_row_len >= 0,
            ;
            assert(0 <= start_x * channels) by (nonlinear_arith)
                requires
                    start_x >= 0,
                    channels >= 0,
            ;
        }
        let idx = row * screen_row_len + col;
        acc = acc + abs_diff_u8(buf[idx], sample_buf[i]) as u64;
        i = i + 1;
        if i % CHUNK == 0 && acc > threshold {
            proof {
                lemma_flat_diff_mono(sc, sm, x, y, i as nat, limit as nat);
                assert(at_diff(sc, sm, x, y) == flat_diff(sc, sm, x, y, limit as nat));
            }
            return false;
        }
    }
    acc <= threshold
}

/// Per-byte differences between the 32 screen bytes at `point` and the first
/// 32 sample bytes.
pub fn debug_match(screen: &Image, sample: &Image, point: Point) -> (r: [u8; CHUNK])
    requires
        screen@.row_len() * point[1] + point[0] * screen@.channels + 32 <= screen@.bytes.len(),
        sample@.bytes.len() >= 32,
    ensures
        forall|i: int|
            0 <= i < 32 ==> #[trigger] r[i] == abs_diff(
                screen@.bytes[screen@.row_len() * point[1] + point[0] * screen@.channels + i],
                sample@.bytes[i],
            ),
{
    let buf = screen.as_raw();
    let sample_buf = sample.as_raw();
    let start = (screen.row_len() as usize) * (point[1] as usize) + (point[0] as usize) * (
    screen.channels() as usize);
    let mut out = [0u8; CHUNK];
    let mut i: usize = 0;
    while i < CHUNK
        invariant
            buf@ == screen@.bytes,
            sample_buf@ == sample@.bytes,
            start == screen@.row_len() * point[1] + point[0] * screen@.channels,
            start + 32 <= buf@.len(),
            buf@.len() <= u32::MAX,
            sample_buf@.len() >= 32,
            0 <= i <= 32,
            forall|j: int|
                0 <= j < i ==> #[trigger] out[j] == abs_diff(buf@[start + j], sample_buf@[j]),
        decreases CHUNK - i,
    {
        out[i] = abs_diff_u8(buf[start + i], sample_buf[i]);
        i = i + 1;
    }
    out
}
} // verus!
