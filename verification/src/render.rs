//! The scheduler's verified core: planning the chunks that partition the
//! display among workers, listing the pixels of a chunk, and merging the
//! per-worker buffers into one image.
//!
//! Workers render into private buffers of `Option` pixels, `None` standing
//! for "not assigned to this worker"; because the chunks are disjoint, at
//! most one worker ever sets a given pixel, and the merge keeps the first
//! set value it meets.

use vstd::prelude::*;
use vstd::arithmetic::div_mod::{
    lemma_fundamental_div_mod, lemma_fundamental_div_mod_converse,
};
use crate::display::Display;
use crate::utils::{cartesian_product, cross, int_range_seq, Source, VecSource, RangeChunks};

verus! {

/// A worker's chunk: the pixel columns `[xs.0, xs.1)` crossed with the rows
/// `[ys.0, ys.1)`.
pub type ChunkBounds = ((usize, usize), (usize, usize));

/// Whether pixel `(x, y)` lies in the chunk.
pub open spec fn chunk_contains(c: ChunkBounds, x: int, y: int) -> bool {
    &&& c.0.0 <= x < c.0.1
    &&& c.1.0 <= y < c.1.1
}

/// Whether some chunk of the list contains pixel `(x, y)`.
pub open spec fn covered_by(r: Seq<ChunkBounds>, x: int, y: int) -> bool {
    exists|k: int| 0 <= k < r.len() && chunk_contains(#[trigger] r[k], x, y)
}

/// A chunk that fits the display: ordered, in-range bounds, and no more
/// pixels than the display itself.
pub open spec fn chunk_wf(c: ChunkBounds, d: Display) -> bool {
    &&& c.0.0 <= c.0.1 <= d.x
    &&& c.1.0 <= c.1.1 <= d.y
    &&& (c.0.1 - c.0.0) * (c.1.1 - c.1.0) <= d.x * d.y
}

/// Lower bound of the `k`-th regular chunk splitting `[start, end)` into
/// pieces of `size`.
pub open spec fn regular_lo(start: int, size: int, k: int) -> int {
    start + k * size
}

/// Upper bound of the `k`-th regular chunk, capped at `end`.
pub open spec fn regular_hi(start: int, end: int, size: int, k: int) -> int {
    if start + (k + 1) * size <= end {
        start + (k + 1) * size
    } else {
        end
    }
}

/// Splits `[start, end)` into consecutive chunks of at most `size` indices,
/// as pairs of bounds.
fn collect_range_chunks(start: usize, end: usize, size: usize) -> (r: Vec<(usize, usize)>)
    requires
        start <= end,
        1 <= size,
    ensures
        forall|k: int|
            0 <= k < r@.len() ==> (#[trigger] r@[k]).0 == regular_lo(start as int, size as int, k)
                && r@[k].1 == regular_hi(start as int, end as int, size as int, k),
        start + r@.len() * size >= end,
        start == end ==> r@.len() == 0,
        start < end ==> 1 <= r@.len() <= end - start,
        forall|k: int|
            0 <= k < r@.len() ==> start <= (#[trigger] r@[k]).0 && r@[k].0 < r@[k].1 && r@[k].1
                <= end,
{
    let mut rc = RangeChunks::new(start..end, size);
    let mut r: Vec<(usize, usize)> = Vec::new();
    proof {
        assert(0 * size == 0) by (nonlinear_arith);
    }
    loop
        invariant
            rc.wf(),
            rc.end() == end,
            rc.size() == size,
            forall|k: int|
                0 <= k < r@.len() ==> (#[trigger] r@[k]).0 == regular_lo(
                    start as int,
                    size as int,
                    k,
                ) && r@[k].1 == regular_hi(start as int, end as int, size as int, k),
            rc.cur() == if start + r@.len() * size <= end {
                start + r@.len() * size
            } else {
                end as int
            },
            r@.len() > 0 ==> start + (r@.len() - 1) * size < end,
        ensures
            rc.cur() >= end,
            rc.size() == size,
            rc.end() == end,
            forall|k: int|
                0 <= k < r@.len() ==> (#[trigger] r@[k]).0 == regular_lo(
                    start as int,
                    size as int,
                    k,
                ) && r@[k].1 == regular_hi(start as int, end as int, size as int, k),
            start + r@.len() * size >= end,
            r@.len() > 0 ==> start + (r@.len() - 1) * size < end,
        decreases rc.end() - rc.cur(),
    {
        let ghost k = r@.len() as int;
        proof {
            assert((k + 1) * size == k * size + size) by (nonlinear_arith);
        }
        match rc.next() {
            None => {
                break;
            },
            Some(c) => {
                r.push((c.start, c.end));
                proof {
                    assert(r@[k].0 == regular_lo(start as int, size as int, k));
                }
            },
        }
    }
    proof {
        assert(0 * size == 0) by (nonlinear_arith);
        if start < end {
            let n = r@.len() as int;
            assert(n >= 1);
            assert(n - 1 <= (n - 1) * size) by (nonlinear_arith)
                requires
                    n - 1 >= 0,
                    size >= 1,
            ;
        }
        let n = r@.len() as int;
        assert forall|k: int|
            0 <= k < n implies start <= (#[trigger] r@[k]).0 && r@[k].0 < r@[k].1 && r@[k].1
            <= end by {
            assert(k * size >= 0) by (nonlinear_arith)
                requires
                    k >= 0,
                    size >= 0,
            ;
            assert(k * size <= (n - 1) * size) by (nonlinear_arith)
                requires
                    k <= n - 1,
                    size >= 0,
            ;
            assert(start + k * size < end);
            assert((k + 1) * size == k * size + size) by (nonlinear_arith);
        }
    }
    r
}

/// In a regular chunking, index `i` lies in chunk `k` exactly when
/// `k == (i - start) / size`.
proof fn lemma_regular_chunk_membership(start: int, end: int, size: int, k: int, i: int)
    requires
        1 <= size,
        start <= end,
        0 <= k,
        start <= i < end,
    ensures
        (regular_lo(start, size, k) <= i < regular_hi(start, end, size, k)) <==> k == (i - start)
            / size,
{
    assert((k + 1) * size == k * size + size) by (nonlinear_arith);
    if regular_lo(start, size, k) <= i < regular_hi(start, end, size, k) {
        assert(start + k * size <= i < start + (k + 1) * size);
        lemma_fundamental_div_mod_converse(i - start, size, k, i - start - k * size);
    }
    if k == (i - start) / size {
        lemma_fundamental_div_mod(i - start, size);
        vstd::arithmetic::div_mod::lemma_mod_bound(i - start, size);
        assert(i - start == size * ((i - start) / size) + (i - start) % size);
        assert(size * k == k * size) by (nonlinear_arith);
        assert(start + k * size <= i < start + (k + 1) * size);
        assert(regular_lo(start, size, k) <= i < regular_hi(start, end, size, k));
    }
}

/// Plans the chunks one render divides the display into: `threads` near-equal
/// column bands crossed with `threads` near-equal row bands. Every pixel of
/// the display lies in exactly one planned chunk.
pub fn plan_chunks(display: Display, threads: usize) -> (r: Vec<ChunkBounds>)
    requires
        1 <= display.x,
        1 <= display.y,
        1 <= threads,
        display.x + 2 <= usize::MAX,
        display.y + 2 <= usize::MAX,
        display.x * display.y <= usize::MAX,
    ensures
        forall|k: int| 0 <= k < r@.len() ==> chunk_wf(#[trigger] r@[k], display),
        forall|x: int, y: int|
            0 <= x < display.x && 0 <= y < display.y ==> #[trigger] covered_by(r@, x, y),
        forall|k1: int, k2: int, x: int, y: int|
            0 <= k1 < r@.len() && 0 <= k2 < r@.len() && #[trigger] chunk_contains(r@[k1], x, y)
                && #[trigger] chunk_contains(r@[k2], x, y) ==> k1 == k2,
{
    let w = display.x as usize;
    let h = display.y as usize;
    proof {
        assert((w + 1) as int / threads as int <= (w + 1) as int) by (nonlinear_arith)
            requires
                threads >= 1,
                w >= 0,
        ;
        assert((h + 1) as int / threads as int <= (h + 1) as int) by (nonlinear_arith)
            requires
                threads >= 1,
                h >= 0,
        ;
    }
    let sx = (w + 1) / threads + 1;
    let sy = (h + 1) / threads + 1;
    let xs = collect_range_chunks(0, w, sx);
    let ys = collect_range_chunks(0, h, sy);
    let ghost gxs = xs.deep_view();
    let ghost gys = ys.deep_view();
    let ghost nx = gxs.len() as int;
    let ghost ny = gys.len() as int;
    proof {
        assert(gxs =~= xs@);
        assert(gys =~= ys@);
    }
    let mut prod = cartesian_product(VecSource::new(xs), ys);
    let mut r: Vec<ChunkBounds> = Vec::new();
    proof {
        assert(nx * ny <= (display.x * display.y) as int) by (nonlinear_arith)
            requires
                0 <= nx <= display.x as int,
                0 <= ny <= display.y as int,
        ;
    }
    loop
        invariant
            prod.wf(),
            r@.len() + prod.todo().len() == cross(gxs, gys).len(),
            prod.todo() =~= cross(gxs, gys).skip(r@.len() as int),
            forall|j: int| 0 <= j < r@.len() ==> #[trigger] r@[j] == cross(gxs, gys)[j],
        ensures
            r@.len() == cross(gxs, gys).len(),
            forall|j: int| 0 <= j < r@.len() ==> #[trigger] r@[j] == cross(gxs, gys)[j],
        decreases prod.todo().len(),
    {
        match prod.next() {
            None => {
                break;
            },
            Some(p) => {
                proof {
                    assert(p.deep_view() == p);
                }
                r.push(p);
            },
        }
    }
    proof {
        lemma_plan_covers(display, r@, gxs, gys, sx as int, sy as int);
        lemma_plan_chunks_wf(display, r@, gxs, gys);
    }
    r
}

/// Every chunk of the cross-product list fits the display, because each
/// column band and row band does.
proof fn lemma_plan_chunks_wf(
    display: Display,
    r: Seq<ChunkBounds>,
    gxs: Seq<(usize, usize)>,
    gys: Seq<(usize, usize)>,
)
    requires
        forall|j: int|
            0 <= j < gxs.len() ==> (#[trigger] gxs[j]).0 < gxs[j].1 && gxs[j].1 <= display.x,
        forall|j: int|
            0 <= j < gys.len() ==> (#[trigger] gys[j]).0 < gys[j].1 && gys[j].1 <= display.y,
        r.len() == cross(gxs, gys).len(),
        forall|j: int| 0 <= j < r.len() ==> #[trigger] r[j] == cross(gxs, gys)[j],
    ensures
        forall|k: int| 0 <= k < r.len() ==> chunk_wf(#[trigger] r[k], display),
{
    let nx = gxs.len() as int;
    let ny = gys.len() as int;
    assert(r.len() == nx * ny);
    assert forall|k: int| 0 <= k < r.len() implies chunk_wf(#[trigger] r[k], display) by {
        assert(ny > 0) by (nonlinear_arith)
            requires
                nx * ny > k >= 0,
                ny >= 0,
        ;
        assert(nx * ny == ny * nx) by (nonlinear_arith);
        vstd::arithmetic::div_mod::lemma_div_pos_is_pos(k, ny);
        vstd::arithmetic::div_mod::lemma_multiply_divide_lt(k, ny, nx);
        vstd::arithmetic::div_mod::lemma_mod_bound(k, ny);
        let kx = k / ny;
        let ky = k % ny;
        assert(r[k] == cross(gxs, gys)[k]);
        assert(r[k] == (gxs[kx], gys[ky]));
        let c = r[k];
        assert((c.0.1 - c.0.0) * (c.1.1 - c.1.0) <= display.x * display.y) by (nonlinear_arith)
            requires
                0 <= c.0.1 - c.0.0 <= display.x as int,
                0 <= c.1.1 - c.1.0 <= display.y as int,
        ;
    }
}

/// The planned chunk list covers each display pixel exactly once, because
/// the column bands partition the columns, the row bands the rows, and the
/// list is their cross product.
proof fn lemma_plan_covers(
    display: Display,
    r: Seq<ChunkBounds>,
    gxs: Seq<(usize, usize)>,
    gys: Seq<(usize, usize)>,
    sx: int,
    sy: int,
)
    requires
        1 <= sx,
        1 <= sy,
        forall|k: int|
            0 <= k < gxs.len() ==> (#[trigger] gxs[k]).0 == regular_lo(0, sx, k) && gxs[k].1
                == regular_hi(0, display.x as int, sx, k),
        forall|k: int|
            0 <= k < gys.len() ==> (#[trigger] gys[k]).0 == regular_lo(0, sy, k) && gys[k].1
                == regular_hi(0, display.y as int, sy, k),
        gxs.len() * sx >= display.x,
        gys.len() * sy >= display.y,
        r.len() == cross(gxs, gys).len(),
        forall|j: int| 0 <= j < r.len() ==> #[trigger] r[j] == cross(gxs, gys)[j],
    ensures
        forall|x: int, y: int|
            0 <= x < display.x && 0 <= y < display.y ==> #[trigger] covered_by(r, x, y),
        forall|k1: int, k2: int, x: int, y: int|
            0 <= k1 < r.len() && 0 <= k2 < r.len() && #[trigger] chunk_contains(r[k1], x, y)
                && #[trigger] chunk_contains(r[k2], x, y) ==> k1 == k2,
{
    let nx = gxs.len() as int;
    let ny = gys.len() as int;
    let w = display.x as int;
    let h = display.y as int;
    assert(r.len() == nx * ny);
    assert forall|x: int, y: int| 0 <= x < w && 0 <= y < h implies #[trigger] covered_by(
        r,
        x,
        y,
    ) by {
        let kx = x / sx;
        let ky = y / sy;
        vstd::arithmetic::div_mod::lemma_div_pos_is_pos(x, sx);
        vstd::arithmetic::div_mod::lemma_div_pos_is_pos(y, sy);
        assert(x < sx * nx) by (nonlinear_arith)
            requires
                x < w,
                w <= nx * sx,
        ;
        vstd::arithmetic::div_mod::lemma_multiply_divide_lt(x, sx, nx);
        assert(y < sy * ny) by (nonlinear_arith)
            requires
                y < h,
                h <= ny * sy,
        ;
        vstd::arithmetic::div_mod::lemma_multiply_divide_lt(y, sy, ny);
        lemma_regular_chunk_membership(0, w, sx, kx, x);
        lemma_regular_chunk_membership(0, h, sy, ky, y);
        let k = kx * ny + ky;
        assert(0 <= k < nx * ny) by (nonlinear_arith)
            requires
                0 <= kx < nx,
                0 <= ky < ny,
                k == kx * ny + ky,
        ;
        lemma_fundamental_div_mod_converse(k, ny, kx, ky);
        assert(r[k] == cross(gxs, gys)[k]);
        assert(cross(gxs, gys)[k] == (gxs[kx], gys[ky]));
        assert(chunk_contains(r[k], x, y));
    }
    assert forall|k1: int, k2: int, x: int, y: int|
        0 <= k1 < r.len() && 0 <= k2 < r.len() && #[trigger] chunk_contains(r[k1], x, y)
            && #[trigger] chunk_contains(r[k2], x, y) implies k1 == k2 by {
        lemma_cross_index_from_contains(display, r, gxs, gys, sx, sy, k1, x, y);
        lemma_cross_index_from_contains(display, r, gxs, gys, sx, sy, k2, x, y);
    }
}

/// A chunk of the cross-product list that contains `(x, y)` is the one at
/// index `(x / sx) * ny + y / sy`.
proof fn lemma_cross_index_from_contains(
    display: Display,
    r: Seq<ChunkBounds>,
    gxs: Seq<(usize, usize)>,
    gys: Seq<(usize, usize)>,
    sx: int,
    sy: int,
    k: int,
    x: int,
    y: int,
)
    requires
        1 <= sx,
        1 <= sy,
        forall|j: int|
            0 <= j < gxs.len() ==> (#[trigger] gxs[j]).0 == regular_lo(0, sx, j) && gxs[j].1
                == regular_hi(0, display.x as int, sx, j),
        forall|j: int|
            0 <= j < gys.len() ==> (#[trigger] gys[j]).0 == regular_lo(0, sy, j) && gys[j].1
                == regular_hi(0, display.y as int, sy, j),
        r.len() == cross(gxs, gys).len(),
        forall|j: int| 0 <= j < r.len() ==> #[trigger] r[j] == cross(gxs, gys)[j],
        0 <= k < r.len(),
        chunk_contains(r[k], x, y),
    ensures
        k == (x / sx) * (gys.len() as int) + y / sy,
{
    let nx = gxs.len() as int;
    let ny = gys.len() as int;
    let w = display.x as int;
    let h = display.y as int;
    assert(r.len() == nx * ny);
    assert(ny > 0) by (nonlinear_arith)
        requires
            nx * ny > k >= 0,
            ny >= 0,
    ;
    let kx = k / ny;
    let ky = k % ny;
    assert(nx * ny == ny * nx) by (nonlinear_arith);
    vstd::arithmetic::div_mod::lemma_div_pos_is_pos(k, ny);
    vstd::arithmetic::div_mod::lemma_multiply_divide_lt(k, ny, nx);
    vstd::arithmetic::div_mod::lemma_mod_bound(k, ny);
    assert(r[k] == cross(gxs, gys)[k]);
    assert(cross(gxs, gys)[k] == (gxs[kx], gys[ky]));
    assert(0 <= x < w) by {
        assert(chunk_contains(r[k], x, y));
        assert(regular_lo(0, sx, kx) <= x < regular_hi(0, w, sx, kx));
        assert(kx * sx >= 0) by (nonlinear_arith)
            requires
                kx >= 0,
                sx >= 0,
        ;
    }
    assert(0 <= y < h) by {
        assert(regular_lo(0, sy, ky) <= y < regular_hi(0, h, sy, ky));
        assert(ky * sy >= 0) by (nonlinear_arith)
            requires
                ky >= 0,
                sy >= 0,
        ;
    }
    lemma_regular_chunk_membership(0, w, sx, kx, x);
    lemma_regular_chunk_membership(0, h, sy, ky, y);
    assert(kx == x / sx);
    assert(ky == y / sy);
    lemma_fundamental_div_mod(k, ny);
    assert(ny * (k / ny) == (k / ny) * ny) by (nonlinear_arith);
}

/// The integers of `[lo, hi)`, as a vector.
fn range_vec(lo: usize, hi: usize) -> (r: Vec<usize>)
    requires
        lo <= hi,
    ensures
        r@ == int_range_seq(lo as int, hi as int),
        r.deep_view() == int_range_seq(lo as int, hi as int),
{
    let mut r: Vec<usize> = Vec::new();
    let mut i: usize = lo;
    while i < hi
        invariant
            lo <= i <= hi,
            r@.len() == i - lo,
            forall|j: int| 0 <= j < r@.len() ==> #[trigger] r@[j] == lo + j,
        decreases hi - i,
    {
        r.push(i);
        i = i + 1;
    }
    proof {
        assert(r@ =~= int_range_seq(lo as int, hi as int));
        assert(r.deep_view() =~= r@);
    }
    r
}

/// The pixels of a chunk, column by column: the pairs `(x, y)` for `x` in
/// the chunk's columns and `y` in its rows, `y` varying fastest.
pub fn chunk_pixels(c: ChunkBounds) -> (r: Vec<(usize, usize)>)
    requires
        c.0.0 <= c.0.1,
        c.1.0 <= c.1.1,
        (c.0.1 - c.0.0) * (c.1.1 - c.1.0) <= usize::MAX,
    ensures
        r@ == cross(
            int_range_seq(c.0.0 as int, c.0.1 as int),
            int_range_seq(c.1.0 as int, c.1.1 as int),
        ),
{
    let xv = range_vec(c.0.0, c.0.1);
    let yv = range_vec(c.1.0, c.1.1);
    let ghost gxs = int_range_seq(c.0.0 as int, c.0.1 as int);
    let ghost gys = int_range_seq(c.1.0 as int, c.1.1 as int);
    let mut prod = cartesian_product(VecSource::new(xv), yv);
    let mut r: Vec<(usize, usize)> = Vec::new();
    loop
        invariant
            prod.wf(),
            r@.len() + prod.todo().len() == cross(gxs, gys).len(),
            prod.todo() =~= cross(gxs, gys).skip(r@.len() as int),
            forall|j: int| 0 <= j < r@.len() ==> #[trigger] r@[j] == cross(gxs, gys)[j],
        ensures
            r@.len() == cross(gxs, gys).len(),
            forall|j: int| 0 <= j < r@.len() ==> #[trigger] r@[j] == cross(gxs, gys)[j],
        decreases prod.todo().len(),
    {
        match prod.next() {
            None => {
                break;
            },
            Some(p) => {
                proof {
                    assert(p.deep_view() == p);
                }
                r.push(p);
            },
        }
    }
    proof {
        assert(r@ =~= cross(gxs, gys));
    }
    r
}

/// A chunk's pixel list holds every pixel of the chunk exactly once: each
/// pixel of the chunk appears, and no two list positions hold the same
/// pixel.
pub proof fn lemma_chunk_pixels_exactly_once(c: ChunkBounds)
    requires
        c.0.0 <= c.0.1,
        c.1.0 <= c.1.1,
    ensures
        ({
            let s = cross(
                int_range_seq(c.0.0 as int, c.0.1 as int),
                int_range_seq(c.1.0 as int, c.1.1 as int),
            );
            &&& forall|x: usize, y: usize|
                #[trigger] chunk_contains(c, x as int, y as int) ==> exists|k: int|
                    0 <= k < s.len() && s[k] == (x, y)
            &&& forall|k1: int, k2: int|
                0 <= k1 < s.len() && 0 <= k2 < s.len() && s[k1] == s[k2] ==> k1 == k2
        }),
{
    let x0 = c.0.0 as int;
    let x1 = c.0.1 as int;
    let y0 = c.1.0 as int;
    let y1 = c.1.1 as int;
    let gxs = int_range_seq(x0, x1);
    let gys = int_range_seq(y0, y1);
    let s = cross(gxs, gys);
    let nx = gxs.len() as int;
    let ny = gys.len() as int;
    assert forall|x: usize, y: usize| #[trigger] chunk_contains(c, x as int, y as int)
        implies exists|k: int| 0 <= k < s.len() && s[k] == (x, y) by {
        let kx = x - x0;
        let ky = y - y0;
        let k = kx * ny + ky;
        assert(0 <= k < nx * ny) by (nonlinear_arith)
            requires
                0 <= kx < nx,
                0 <= ky < ny,
                k == kx * ny + ky,
        ;
        lemma_fundamental_div_mod_converse(k, ny, kx, ky);
        assert(s[k] == (gxs[kx], gys[ky]));
        assert(s[k] == (x, y));
    }
    assert forall|k1: int, k2: int|
        0 <= k1 < s.len() && 0 <= k2 < s.len() && s[k1] == s[k2] implies k1 == k2 by {
        assert(ny > 0) by (nonlinear_arith)
            requires
                nx * ny > k1 >= 0,
                ny >= 0,
        ;
        assert(nx * ny == ny * nx) by (nonlinear_arith);
        vstd::arithmetic::div_mod::lemma_div_pos_is_pos(k1, ny);
        vstd::arithmetic::div_mod::lemma_multiply_divide_lt(k1, ny, nx);
        vstd::arithmetic::div_mod::lemma_mod_bound(k1, ny);
        vstd::arithmetic::div_mod::lemma_div_pos_is_pos(k2, ny);
        vstd::arithmetic::div_mod::lemma_multiply_divide_lt(k2, ny, nx);
        vstd::arithmetic::div_mod::lemma_mod_bound(k2, ny);
        assert(s[k1] == (gxs[k1 / ny], gys[k1 % ny]));
        assert(s[k2] == (gxs[k2 / ny], gys[k2 % ny]));
        assert(gxs[k1 / ny] == (x0 + k1 / ny) as usize);
        assert(k1 / ny == k2 / ny && k1 % ny == k2 % ny);
        lemma_fundamental_div_mod(k1, ny);
        lemma_fundamental_div_mod(k2, ny);
    }
}

/// Folds one worker's buffer into the main buffer: a pixel the main buffer
/// already holds keeps its value, an unset pixel takes the worker's.
pub fn merge_buffers<T>(main: Vec<Option<T>>, other: Vec<Option<T>>) -> (r: Vec<Option<T>>)
    requires
        main.len() == other.len(),
    ensures
        r@.len() == main@.len(),
        forall|i: int|
            0 <= i < main@.len() ==> r@[i] == (if main@[i] is Some {
                main@[i]
            } else {
                other@[i]
            }),
{
    let ghost m0 = main@;
    let ghost oth = other@;
    let mut merged = main;
    let mut rest = other;
    let mut j: usize = rest.len();
    while j > 0
        invariant
            j == rest.len(),
            j <= oth.len(),
            merged@.len() == m0.len(),
            m0.len() == oth.len(),
            rest@ =~= oth.take(j as int),
            forall|i: int| 0 <= i < j ==> #[trigger] merged@[i] == m0[i],
            forall|i: int|
                j <= i < merged@.len() ==> #[trigger] merged@[i] == (if m0[i] is Some {
                    m0[i]
                } else {
                    oth[i]
                }),
        decreases j,
    {
        j = j - 1;
        let x = rest.pop().unwrap();
        proof {
            assert(x == oth[j as int]);
            assert(rest@ =~= oth.take(j as int));
        }
        if merged[j].is_none() {
            merged.set(j, x);
        }
        proof {
            assert(merged@[j as int] == (if m0[j as int] is Some {
                m0[j as int]
            } else {
                oth[j as int]
            }));
        }
    }
    merged
}

/// Disjointly populated worker buffers merge to their union: a pixel set in
/// either buffer keeps that value in the merge, and a pixel set in neither
/// stays unset.
pub proof fn lemma_merge_disjoint_union<T>(a: Seq<Option<T>>, b: Seq<Option<T>>, m: Seq<Option<T>>)
    requires
        b.len() == a.len(),
        m.len() == a.len(),
        forall|i: int| 0 <= i < a.len() ==> !(#[trigger] a[i] is Some && b[i] is Some),
        forall|i: int|
            0 <= i < a.len() ==> #[trigger] m[i] == (if a[i] is Some {
                a[i]
            } else {
                b[i]
            }),
    ensures
        forall|i: int| 0 <= i < a.len() ==> (#[trigger] m[i] is Some <==> (a[i] is Some || b[i] is Some)),
        forall|i: int| 0 <= i < a.len() ==> (#[trigger] a[i] is Some ==> m[i] == a[i]),
        forall|i: int| 0 <= i < a.len() ==> (#[trigger] b[i] is Some ==> m[i] == b[i]),
{
}





} // verus!
