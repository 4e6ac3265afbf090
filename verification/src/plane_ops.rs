use vstd::prelude::*;
use crate::engine::{flood_mask, in_grid, mask_view, plane_at, seed_connected};

verus! {

/// A buffer holds `h` rows of `w` samples laid out `stride` samples apart.
pub open spec fn plane_fits(len: int, w: int, h: int, stride: int) -> bool {
    &&& w <= stride
    &&& h * stride <= len
}

/// The view of an integer plane as a bi-level mask: a pixel is "on" when its
/// sample is strictly greater than zero.
pub open spec fn plane_view_u8(buf: Seq<u8>, w: int, h: int, stride: int) -> Map<
    (int, int),
    bool,
> {
    Map::new(
        |q: (int, int)| in_grid(w, h, q.0, q.1),
        |q: (int, int)| plane_at(buf, stride, q.0, q.1) > 0,
    )
}

/// The bi-level view of a 16-bit plane, as for 8-bit.
pub open spec fn plane_view_u16(buf: Seq<u16>, w: int, h: int, stride: int) -> Map<
    (int, int),
    bool,
> {
    Map::new(
        |q: (int, int)| in_grid(w, h, q.0, q.1),
        |q: (int, int)| plane_at(buf, stride, q.0, q.1) > 0,
    )
}

proof fn lemma_plane_index_bounds(len: int, w: int, h: int, stride: int, x: int, y: int)
    requires
        plane_fits(len, w, h, stride),
        in_grid(w, h, x, y),
    ensures
        0 <= y * stride + x < len,
        0 <= y * stride + x < h * stride,
{
    assert(0 <= y * stride + x < h * stride) by (nonlinear_arith)
        requires 0 <= x < w, 0 <= y < h, w <= stride;
}

proof fn lemma_wh_bound(len: int, w: int, h: int, stride: int)
    requires
        plane_fits(len, w, h, stride),
        0 <= h,
    ensures
        w * h <= len,
{
    assert(w * h <= h * stride) by (nonlinear_arith)
        requires 0 <= h, w <= stride;
}

proof fn lemma_row_major_lt(w: int, x1: int, y1: int, x2: int, y2: int)
    requires
        0 <= x1 < w,
        0 <= x2 <= w,
        0 <= y1,
        0 <= y2,
        y1 < y2 || (y1 == y2 && x1 < x2),
    ensures
        0 <= y1 * w + x1 < y2 * w + x2,
{
    assert(0 <= y1 * w + x1 < y2 * w + x2) by (nonlinear_arith)
        requires 0 <= x1 < w, 0 <= x2 <= w, 0 <= y1, 0 <= y2, y1 < y2 || (y1 == y2 && x1 < x2);
}

proof fn lemma_next_row(w: int, y: int)
    ensures
        (y + 1) * w == y * w + w,
{
    assert((y + 1) * w == y * w + w) by (nonlinear_arith);
}

/// Reduces one integer plane to its bi-level mask, dropping padding.
#[verifier::loop_isolation(false)]
fn threshold_u8(buf: &Vec<u8>, width: usize, height: usize, stride: usize) -> (m: Vec<bool>)
    requires
        plane_fits(buf.len() as int, width as int, height as int, stride as int),
    ensures
        m.len() == width * height,
        forall|x: int, y: int|
            in_grid(width as int, height as int, x, y) ==> #[trigger] plane_at(
                m@,
                width as int,
                x,
                y,
            ) == (plane_at(buf@, stride as int, x, y) > 0),
{
    let ghost w = width as int;
    let ghost h = height as int;
    proof {
        lemma_wh_bound(buf.len() as int, w, h, stride as int);
    }
    let mut m: Vec<bool> = Vec::new();
    let mut y: usize = 0;
    while y < height
        invariant
            y <= height,
            m.len() == y * width,
            forall|x2: int, y2: int|
                0 <= x2 < w && 0 <= y2 < y ==> #[trigger] plane_at(m@, w, x2, y2) == (plane_at(
                    buf@,
                    stride as int,
                    x2,
                    y2,
                ) > 0),
        decreases height - y,
    {
        let mut x: usize = 0;
        while x < width
            invariant
                x <= width,
                y < height,
                m.len() == y * width + x,
                forall|x2: int, y2: int|
                    0 <= x2 < w && 0 <= y2 < y ==> #[trigger] plane_at(m@, w, x2, y2) == (plane_at(
                        buf@,
                        stride as int,
                        x2,
                        y2,
                    ) > 0),
                forall|x2: int|
                    0 <= x2 < x ==> #[trigger] plane_at(m@, w, x2, y as int) == (plane_at(
                        buf@,
                        stride as int,
                        x2,
                        y as int,
                    ) > 0),
            decreases width - x,
        {
            proof {
                lemma_plane_index_bounds(
                    buf.len() as int,
                    w,
                    h,
                    stride as int,
                    x as int,
                    y as int,
                );
            }
            let v: u8 = buf[y * stride + x];
            let ghost m0 = m@;
            m.push(v > 0);
            proof {
                assert forall|x2: int, y2: int|
                    0 <= x2 < w && 0 <= y2 < y implies #[trigger] plane_at(m@, w, x2, y2) == (
                plane_at(buf@, stride as int, x2, y2) > 0) by {
                    lemma_row_major_lt(w, x2, y2, x as int, y as int);
                    assert(plane_at(m0, w, x2, y2) == (plane_at(buf@, stride as int, x2, y2)
                        > 0));
                    assert(m@[y2 * w + x2] == m0[y2 * w + x2]);
                }
                assert forall|x2: int| 0 <= x2 < x + 1 implies #[trigger] plane_at(
                    m@,
                    w,
                    x2,
                    y as int,
                ) == (plane_at(buf@, stride as int, x2, y as int) > 0) by {
                    if x2 < x {
                        lemma_row_major_lt(w, x2, y as int, x as int, y as int);
                        assert(plane_at(m0, w, x2, y as int) == (plane_at(
                            buf@,
                            stride as int,
                            x2,
                            y as int,
                        ) > 0));
                        assert(m@[y * w + x2] == m0[y * w + x2]);
                    } else {
                        assert(m@[y * w + x as int] == (v > 0));
                    }
                }
            }
            x += 1;
        }
        proof {
            lemma_next_row(width as int, y as int);
        }
        y += 1;
    }
    proof {
        assert(height as int * width as int == width as int * height as int)
            by (nonlinear_arith);
    }
    m
}

/// Writes one output plane from its bi-level mask: `peak` where the mask is
/// "on", `0` elsewhere, padding samples included.
#[verifier::loop_isolation(false)]
fn expand_u8(m: &Vec<bool>, width: usize, height: usize, stride: usize, peak: u8) -> (dst: Vec<
    u8,
>)
    requires
        m.len() == width * height,
        width <= stride,
        height * stride <= usize::MAX,
        peak > 0,
    ensures
        dst.len() == height * stride,
        forall|x: int, y: int|
            in_grid(width as int, height as int, x, y) ==> #[trigger] plane_at(
                dst@,
                stride as int,
                x,
                y,
            ) == (if plane_at(m@, width as int, x, y) {
                peak
            } else {
                0u8
            }),
        forall|x: int, y: int|
            0 <= y < height && width <= x < stride ==> #[trigger] plane_at(dst@, stride as int, x, y)
                == 0u8,
{
    let ghost w = width as int;
    let ghost h = height as int;
    let ghost s = stride as int;
    proof {
        assert(h * w == w * h) by (nonlinear_arith);
    }
    let mut dst: Vec<u8> = Vec::new();
    let mut y: usize = 0;
    while y < height
        invariant
            y <= height,
            dst.len() == y * stride,
            forall|x2: int, y2: int|
                0 <= x2 < w && 0 <= y2 < y ==> #[trigger] plane_at(dst@, s, x2, y2) == (if plane_at(
                    m@,
                    w,
                    x2,
                    y2,
                ) {
                    peak
                } else {
                    0u8
                }),
            forall|x2: int, y2: int|
                w <= x2 < s && 0 <= y2 < y ==> #[trigger] plane_at(dst@, s, x2, y2) == 0u8,
        decreases height - y,
    {
        let mut x: usize = 0;
        while x < stride
            invariant
                x <= stride,
                y < height,
                dst.len() == y * stride + x,
                forall|x2: int, y2: int|
                    0 <= x2 < w && 0 <= y2 < y ==> #[trigger] plane_at(dst@, s, x2, y2) == (
                    if plane_at(m@, w, x2, y2) {
                        peak
                    } else {
                        0u8
                    }),
                forall|x2: int, y2: int|
                    w <= x2 < s && 0 <= y2 < y ==> #[trigger] plane_at(dst@, s, x2, y2) == 0u8,
                forall|x2: int|
                    0 <= x2 < x && x2 < w ==> #[trigger] plane_at(dst@, s, x2, y as int) == (
                    if plane_at(m@, w, x2, y as int) {
                        peak
                    } else {
                        0u8
                    }),
                forall|x2: int|
                    w <= x2 < x ==> #[trigger] plane_at(dst@, s, x2, y as int) == 0u8,
            decreases stride - x,
        {
            let val: u8 = if x < width {
                proof {
                    lemma_plane_index_bounds(
                        m.len() as int,
                        w,
                        h,
                        w,
                        x as int,
                        y as int,
                    );
                }
                if m[y * width + x] {
                    peak
                } else {
                    0
                }
            } else {
                0
            };
            let ghost d0 = dst@;
            dst.push(val);
            proof {
                assert forall|x2: int, y2: int|
                    0 <= x2 < w && 0 <= y2 < y implies #[trigger] plane_at(dst@, s, x2, y2) == (
                if plane_at(m@, w, x2, y2) {
                    peak
                } else {
                    0u8
                }) by {
                    lemma_row_major_lt(s, x2, y2, x as int, y as int);
                    assert(plane_at(d0, s, x2, y2) == (if plane_at(m@, w, x2, y2) {
                        peak
                    } else {
                        0u8
                    }));
                    assert(dst@[y2 * s + x2] == d0[y2 * s + x2]);
                }
                assert forall|x2: int, y2: int|
                    w <= x2 < s && 0 <= y2 < y implies #[trigger] plane_at(dst@, s, x2, y2)
                    == 0u8 by {
                    lemma_row_major_lt(s, x2, y2, x as int, y as int);
                    assert(plane_at(d0, s, x2, y2) == 0u8);
                    assert(dst@[y2 * s + x2] == d0[y2 * s + x2]);
                }
                assert forall|x2: int| 0 <= x2 < x + 1 && x2 < w implies #[trigger] plane_at(
                    dst@,
                    s,
                    x2,
                    y as int,
                ) == (if plane_at(m@, w, x2, y as int) {
                    peak
                } else {
                    0u8
                }) by {
                    if x2 < x {
                        lemma_row_major_lt(s, x2, y as int, x as int, y as int);
                        assert(plane_at(d0, s, x2, y as int) == (if plane_at(m@, w, x2, y as int) {
                            peak
                        } else {
                            0u8
                        }));
                        assert(dst@[y * s + x2] == d0[y * s + x2]);
                    } else {
                        assert(dst@[y * s + x as int] == val);
                    }
                }
                assert forall|x2: int| w <= x2 < x + 1 implies #[trigger] plane_at(
                    dst@,
                    s,
                    x2,
                    y as int,
                ) == 0u8 by {
                    if x2 < x {
                        lemma_row_major_lt(s, x2, y as int, x as int, y as int);
                        assert(plane_at(d0, s, x2, y as int) == 0u8);
                        assert(dst@[y * s + x2] == d0[y * s + x2]);
                    } else {
                        assert(dst@[y * s + x as int] == val);
                    }
                }
            }
            x += 1;
        }
        proof {
            lemma_next_row(stride as int, y as int);
        }
        y += 1;
    }
    dst
}

/// Pass-through for an unprocessed plane: every in-grid output sample equals
/// the seed plane's sample, row by row under each buffer's own stride, and
/// padding samples are `0`.
#[verifier::loop_isolation(false)]
pub fn copy_plane_u8(
    src: &Vec<u8>,
    width: usize,
    height: usize,
    src_stride: usize,
    dst_stride: usize,
) -> (dst: Vec<u8>)
    requires
        plane_fits(src.len() as int, width as int, height as int, src_stride as int),
        width <= dst_stride,
        height * dst_stride <= usize::MAX,
    ensures
        dst.len() == height * dst_stride,
        forall|x: int, y: int|
            in_grid(width as int, height as int, x, y) ==> #[trigger] plane_at(
                dst@,
                dst_stride as int,
                x,
                y,
            ) == plane_at(src@, src_stride as int, x, y),
        forall|x: int, y: int|
            0 <= y < height && width <= x < dst_stride ==> #[trigger] plane_at(
                dst@,
                dst_stride as int,
                x,
                y,
            ) == 0u8,
{
    let ghost w = width as int;
    let ghost h = height as int;
    let ghost ss = src_stride as int;
    let ghost ds = dst_stride as int;
    let mut dst: Vec<u8> = Vec::new();
    let mut y: usize = 0;
    while y < height
        invariant
            y <= height,
            dst.len() == y * dst_stride,
            forall|x2: int, y2: int|
                0 <= x2 < w && 0 <= y2 < y ==> #[trigger] plane_at(dst@, ds, x2, y2) == plane_at(
                    src@,
                    ss,
                    x2,
                    y2,
                ),
            forall|x2: int, y2: int|
                w <= x2 < ds && 0 <= y2 < y ==> #[trigger] plane_at(dst@, ds, x2, y2) == 0u8,
        decreases height - y,
    {
        let mut x: usize = 0;
        while x < dst_stride
            invariant
                x <= dst_stride,
                y < height,
                dst.len() == y * dst_stride + x,
                forall|x2: int, y2: int|
                    0 <= x2 < w && 0 <= y2 < y ==> #[trigger] plane_at(dst@, ds, x2, y2)
                        == plane_at(src@, ss, x2, y2),
                forall|x2: int, y2: int|
                    w <= x2 < ds && 0 <= y2 < y ==> #[trigger] plane_at(dst@, ds, x2, y2) == 0u8,
                forall|x2: int|
                    0 <= x2 < x && x2 < w ==> #[trigger] plane_at(dst@, ds, x2, y as int)
                        == plane_at(src@, ss, x2, y as int),
                forall|x2: int|
                    w <= x2 < x ==> #[trigger] plane_at(dst@, ds, x2, y as int) == 0u8,
            decreases dst_stride - x,
        {
            let val: u8 = if x < width {
                proof {
                    lemma_plane_index_bounds(
                        src.len() as int,
                        w,
                        h,
                        ss,
                        x as int,
                        y as int,
                    );
                }
                src[y * src_stride + x]
            } else {
                0
            };
            let ghost d0 = dst@;
            dst.push(val);
            proof {
                assert forall|x2: int, y2: int|
                    0 <= x2 < w && 0 <= y2 < y implies #[trigger] plane_at(dst@, ds, x2, y2)
                    == plane_at(src@, ss, x2, y2) by {
                    lemma_row_major_lt(ds, x2, y2, x as int, y as int);
                    assert(plane_at(d0, ds, x2, y2) == plane_at(src@, ss, x2, y2));
                    assert(dst@[y2 * ds + x2] == d0[y2 * ds + x2]);
                }
                assert forall|x2: int, y2: int|
                    w <= x2 < ds && 0 <= y2 < y implies #[trigger] plane_at(dst@, ds, x2, y2)
                    == 0u8 by {
                    lemma_row_major_lt(ds, x2, y2, x as int, y as int);
                    assert(plane_at(d0, ds, x2, y2) == 0u8);
                    assert(dst@[y2 * ds + x2] == d0[y2 * ds + x2]);
                }
                assert forall|x2: int| 0 <= x2 < x + 1 && x2 < w implies #[trigger] plane_at(
                    dst@,
                    ds,
                    x2,
                    y as int,
                ) == plane_at(src@, ss, x2, y as int) by {
                    if x2 < x {
                        lemma_row_major_lt(ds, x2, y as int, x as int, y as int);
                        assert(plane_at(d0, ds, x2, y as int) == plane_at(src@, ss, x2, y as int));
                        assert(dst@[y * ds + x2] == d0[y * ds + x2]);
                    } else {
                        assert(dst@[y * ds + x as int] == val);
                    }
                }
                assert forall|x2: int| w <= x2 < x + 1 implies #[trigger] plane_at(
                    dst@,
                    ds,
                    x2,
                    y as int,
                ) == 0u8 by {
                    if x2 < x {
                        lemma_row_major_lt(ds, x2, y as int, x as int, y as int);
                        assert(plane_at(d0, ds, x2, y as int) == 0u8);
                        assert(dst@[y * ds + x2] == d0[y * ds + x2]);
                    } else {
                        assert(dst@[y * ds + x as int] == val);
                    }
                }
            }
            x += 1;
        }
        proof {
            lemma_next_row(dst_stride as int, y as int);
        }
        y += 1;
    }
    dst
}

/// Hysteresis for one processed 8-bit plane: an output sample is `peak`
/// exactly when its pixel is seed-connected, `0` otherwise; padding samples
/// are `0`.
pub fn flood_plane_u8(
    seed: &Vec<u8>,
    cand: &Vec<u8>,
    width: usize,
    height: usize,
    seed_stride: usize,
    cand_stride: usize,
    dst_stride: usize,
    peak: u8,
) -> (dst: Vec<u8>)
    requires
        plane_fits(seed.len() as int, width as int, height as int, seed_stride as int),
        plane_fits(cand.len() as int, width as int, height as int, cand_stride as int),
        width <= dst_stride,
        height * dst_stride <= usize::MAX,
        peak > 0,
    ensures
        dst.len() == height * dst_stride,
        forall|x: int, y: int|
            in_grid(width as int, height as int, x, y) ==> #[trigger] plane_at(
                dst@,
                dst_stride as int,
                x,
                y,
            ) == (if seed_connected(
                plane_view_u8(seed@, width as int, height as int, seed_stride as int),
                plane_view_u8(cand@, width as int, height as int, cand_stride as int),
                width as int,
                height as int,
                x,
                y,
            ) {
                peak
            } else {
                0u8
            }),
        forall|x: int, y: int|
            0 <= y < height && width <= x < dst_stride ==> #[trigger] plane_at(
                dst@,
                dst_stride as int,
                x,
                y,
            ) == 0u8,
{
    let ghost w = width as int;
    let ghost h = height as int;
    let sm = threshold_u8(seed, width, height, seed_stride);
    let cm = threshold_u8(cand, width, height, cand_stride);
    let fm = flood_mask(&sm, &cm, width, height);
    proof {
        assert forall|q: (int, int)| #![auto] mask_view(sm@, w, h).dom().contains(q) implies
            mask_view(sm@, w, h)[q] == plane_view_u8(seed@, w, h, seed_stride as int)[q] by {
            assert(plane_at(sm@, w, q.0, q.1) == (plane_at(seed@, seed_stride as int, q.0, q.1)
                > 0));
        }
        assert(mask_view(sm@, w, h) =~= plane_view_u8(seed@, w, h, seed_stride as int));
        assert forall|q: (int, int)| #![auto] mask_view(cm@, w, h).dom().contains(q) implies
            mask_view(cm@, w, h)[q] == plane_view_u8(cand@, w, h, cand_stride as int)[q] by {
            assert(plane_at(cm@, w, q.0, q.1) == (plane_at(cand@, cand_stride as int, q.0, q.1)
                > 0));
        }
        assert(mask_view(cm@, w, h) =~= plane_view_u8(cand@, w, h, cand_stride as int));
    }
    expand_u8(&fm, width, height, dst_stride, peak)
}

/// One output plane of a frame: flood-filled when the plane is marked for
/// processing, a straight copy of the seed plane otherwise.
pub fn plane_output_u8(
    process: bool,
    seed: &Vec<u8>,
    cand: &Vec<u8>,
    width: usize,
    height: usize,
    seed_stride: usize,
    cand_stride: usize,
    dst_stride: usize,
    peak: u8,
) -> (dst: Vec<u8>)
    requires
        plane_fits(seed.len() as int, width as int, height as int, seed_stride as int),
        plane_fits(cand.len() as int, width as int, height as int, cand_stride as int),
        width <= dst_stride,
        height * dst_stride <= usize::MAX,
        peak > 0,
    ensures
        dst.len() == height * dst_stride,
        process ==> forall|x: int, y: int|
            in_grid(width as int, height as int, x, y) ==> #[trigger] plane_at(
                dst@,
                dst_stride as int,
                x,
                y,
            ) == (if seed_connected(
                plane_view_u8(seed@, width as int, height as int, seed_stride as int),
                plane_view_u8(cand@, width as int, height as int, cand_stride as int),
                width as int,
                height as int,
                x,
                y,
            ) {
                peak
            } else {
                0u8
            }),
        !process ==> forall|x: int, y: int|
            in_grid(width as int, height as int, x, y) ==> #[trigger] plane_at(
                dst@,
                dst_stride as int,
                x,
                y,
            ) == plane_at(seed@, seed_stride as int, x, y),
        forall|x: int, y: int|
            0 <= y < height && width <= x < dst_stride ==> #[trigger] plane_at(
                dst@,
                dst_stride as int,
                x,
                y,
            ) == 0u8,
{
    if process {
        flood_plane_u8(seed, cand, width, height, seed_stride, cand_stride, dst_stride, peak)
    } else {
        copy_plane_u8(seed, width, height, seed_stride, dst_stride)
    }
}

/// Reduces one integer plane to its bi-level mask, dropping padding.
#[verifier::loop_isolation(false)]
fn threshold_u16(buf: &Vec<u16>, width: usize, height: usize, stride: usize) -> (m: Vec<bool>)
    requires
        plane_fits(buf.len() as int, width as int, height as int, stride as int),
    ensures
        m.len() == width * height,
        forall|x: int, y: int|
            in_grid(width as int, height as int, x, y) ==> #[trigger] plane_at(
                m@,
                width as int,
                x,
                y,
            ) == (plane_at(buf@, stride as int, x, y) > 0),
{
    let ghost w = width as int;
    let ghost h = height as int;
    proof {
        lemma_wh_bound(buf.len() as int, w, h, stride as int);
    }
    let mut m: Vec<bool> = Vec::new();
    let mut y: usize = 0;
    while y < height
        invariant
            y <= height,
            m.len() == y * width,
            forall|x2: int, y2: int|
                0 <= x2 < w && 0 <= y2 < y ==> #[trigger] plane_at(m@, w, x2, y2) == (plane_at(
                    buf@,
                    stride as int,
                    x2,
                    y2,
                ) > 0),
        decreases height - y,
    {
        let mut x: usize = 0;
        while x < width
            invariant
                x <= width,
                y < height,
                m.len() == y * width + x,
                forall|x2: int, y2: int|
                    0 <= x2 < w && 0 <= y2 < y ==> #[trigger] plane_at(m@, w, x2, y2) == (plane_at(
                        buf@,
                        stride as int,
                        x2,
                        y2,
                    ) > 0),
                forall|x2: int|
                    0 <= x2 < x ==> #[trigger] plane_at(m@, w, x2, y as int) == (plane_at(
                        buf@,
                        stride as int,
                        x2,
                        y as int,
                    ) > 0),
            decreases width - x,
        {
            proof {
                lemma_plane_index_bounds(
                    buf.len() as int,
                    w,
                    h,
                    stride as int,
                    x as int,
                    y as int,
                );
            }
            let v: u16 = buf[y * stride + x];
            let ghost m0 = m@;
            m.push(v > 0);
            proof {
                assert forall|x2: int, y2: int|
                    0 <= x2 < w && 0 <= y2 < y implies #[trigger] plane_at(m@, w, x2, y2) == (
                plane_at(buf@, stride as int, x2, y2) > 0) by {
                    lemma_row_major_lt(w, x2, y2, x as int, y as int);
                    assert(plane_at(m0, w, x2, y2) == (plane_at(buf@, stride as int, x2, y2)
                        > 0));
                    assert(m@[y2 * w + x2] == m0[y2 * w + x2]);
                }
                assert forall|x2: int| 0 <= x2 < x + 1 implies #[trigger] plane_at(
                    m@,
                    w,
                    x2,
                    y as int,
                ) == (plane_at(buf@, stride as int, x2, y as int) > 0) by {
                    if x2 < x {
                        lemma_row_major_lt(w, x2, y as int, x as int, y as int);
                        assert(plane_at(m0, w, x2, y as int) == (plane_at(
                            buf@,
                            stride as int,
                            x2,
                            y as int,
                        ) > 0));
                        assert(m@[y * w + x2] == m0[y * w + x2]);
                    } else {
                        assert(m@[y * w + x as int] == (v > 0));
                    }
                }
            }
            x += 1;
        }
        proof {
            lemma_next_row(width as int, y as int);
        }
        y += 1;
    }
    proof {
        assert(height as int * width as int == width as int * height as int)
            by (nonlinear_arith);
    }
    m
}

/// Writes one output plane from its bi-level mask: `peak` where the mask is
/// "on", `0` elsewhere, padding samples included.
#[verifier::loop_isolation(false)]
fn expand_u16(m: &Vec<bool>, width: usize, height: usize, stride: usize, peak: u16) -> (dst: Vec<
    u16,
>)
    requires
        m.len() == width * height,
        width <= stride,
        height * stride <= usize::MAX,
        peak > 0,
    ensures
        dst.len() == height * stride,
        forall|x: int, y: int|
            in_grid(width as int, height as int, x, y) ==> #[trigger] plane_at(
                dst@,
                stride as int,
                x,
                y,
            ) == (if plane_at(m@, width as int, x, y) {
                peak
            } else {
                0u16
            }),
        forall|x: int, y: int|
            0 <= y < height && width <= x < stride ==> #[trigger] plane_at(dst@, stride as int, x, y)
                == 0u16,
{
    let ghost w = width as int;
    let ghost h = height as int;
    let ghost s = stride as int;
    proof {
        assert(h * w == w * h) by (nonlinear_arith);
    }
    let mut dst: Vec<u16> = Vec::new();
    let mut y: usize = 0;
    while y < height
        invariant
            y <= height,
            dst.len() == y * stride,
            forall|x2: int, y2: int|
                0 <= x2 < w && 0 <= y2 < y ==> #[trigger] plane_at(dst@, s, x2, y2) == (if plane_at(
                    m@,
                    w,
                    x2,
                    y2,
                ) {
                    peak
                } else {
                    0u16
                }),
            forall|x2: int, y2: int|
                w <= x2 < s && 0 <= y2 < y ==> #[trigger] plane_at(dst@, s, x2, y2) == 0u16,
        decreases height - y,
    {
        let mut x: usize = 0;
        while x < stride
            invariant
                x <= stride,
                y < height,
                dst.len() == y * stride + x,
                forall|x2: int, y2: int|
                    0 <= x2 < w && 0 <= y2 < y ==> #[trigger] plane_at(dst@, s, x2, y2) == (
                    if plane_at(m@, w, x2, y2) {
                        peak
                    } else {
                        0u16
                    }),
                forall|x2: int, y2: int|
                    w <= x2 < s && 0 <= y2 < y ==> #[trigger] plane_at(dst@, s, x2, y2) == 0u16,
                forall|x2: int|
                    0 <= x2 < x && x2 < w ==> #[trigger] plane_at(dst@, s, x2, y as int) == (
                    if plane_at(m@, w, x2, y as int) {
                        peak
                    } else {
                        0u16
                    }),
                forall|x2: int|
                    w <= x2 < x ==> #[trigger] plane_at(dst@, s, x2, y as int) == 0u16,
            decreases stride - x,
        {
            let val: u16 = if x < width {
                proof {
                    lemma_plane_index_bounds(
                        m.len() as int,
                        w,
                        h,
                        w,
                        x as int,
                        y as int,
                    );
                }
                if m[y * width + x] {
                    peak
                } else {
                    0
                }
            } else {
                0
            };
            let ghost d0 = dst@;
            dst.push(val);
            proof {
                assert forall|x2: int, y2: int|
                    0 <= x2 < w && 0 <= y2 < y implies #[trigger] plane_at(dst@, s, x2, y2) == (
                if plane_at(m@, w, x2, y2) {
                    peak
                } else {
                    0u16
                }) by {
                    lemma_row_major_lt(s, x2, y2, x as int, y as int);
                    assert(plane_at(d0, s, x2, y2) == (if plane_at(m@, w, x2, y2) {
                        peak
                    } else {
                        0u16
                    }));
                    assert(dst@[y2 * s + x2] == d0[y2 * s + x2]);
                }
                assert forall|x2: int, y2: int|
                    w <= x2 < s && 0 <= y2 < y implies #[trigger] plane_at(dst@, s, x2, y2)
                    == 0u16 by {
                    lemma_row_major_lt(s, x2, y2, x as int, y as int);
                    assert(plane_at(d0, s, x2, y2) == 0u16);
                    assert(dst@[y2 * s + x2] == d0[y2 * s + x2]);
                }
                assert forall|x2: int| 0 <= x2 < x + 1 && x2 < w implies #[trigger] plane_at(
                    dst@,
                    s,
                    x2,
                    y as int,
                ) == (if plane_at(m@, w, x2, y as int) {
                    peak
                } else {
                    0u16
                }) by {
                    if x2 < x {
                        lemma_row_major_lt(s, x2, y as int, x as int, y as int);
                        assert(plane_at(d0, s, x2, y as int) == (if plane_at(m@, w, x2, y as int) {
                            peak
                        } else {
                            0u16
                        }));
                        assert(dst@[y * s + x2] == d0[y * s + x2]);
                    } else {
                        assert(dst@[y * s + x as int] == val);
                    }
                }
                assert forall|x2: int| w <= x2 < x + 1 implies #[trigger] plane_at(
                    dst@,
                    s,
                    x2,
                    y as int,
                ) == 0u16 by {
                    if x2 < x {
                        lemma_row_major_lt(s, x2, y as int, x as int, y as int);
                        assert(plane_at(d0, s, x2, y as int) == 0u16);
                        assert(dst@[y * s + x2] == d0[y * s + x2]);
                    } else {
                        assert(dst@[y * s + x as int] == val);
                    }
                }
            }
            x += 1;
        }
        proof {
            lemma_next_row(stride as int, y as int);
        }
        y += 1;
    }
    dst
}

/// Pass-through for an unprocessed plane: every in-grid output sample equals
/// the seed plane's sample, row by row under each buffer's own stride, and
/// padding samples are `0`.
#[verifier::loop_isolation(false)]
pub fn copy_plane_u16(
    src: &Vec<u16>,
    width: usize,
    height: usize,
    src_stride: usize,
    dst_stride: usize,
) -> (dst: Vec<u16>)
    requires
        plane_fits(src.len() as int, width as int, height as int, src_stride as int),
        width <= dst_stride,
        height * dst_stride <= usize::MAX,
    ensures
        dst.len() == height * dst_stride,
        forall|x: int, y: int|
            in_grid(width as int, height as int, x, y) ==> #[trigger] plane_at(
                dst@,
                dst_stride as int,
                x,
                y,
            ) == plane_at(src@, src_stride as int, x, y),
        forall|x: int, y: int|
            0 <= y < height && width <= x < dst_stride ==> #[trigger] plane_at(
                dst@,
                dst_stride as int,
                x,
                y,
            ) == 0u16,
{
    let ghost w = width as int;
    let ghost h = height as int;
    let ghost ss = src_stride as int;
    let ghost ds = dst_stride as int;
    let mut dst: Vec<u16> = Vec::new();
    let mut y: usize = 0;
    while y < height
        invariant
            y <= height,
            dst.len() == y * dst_stride,
            forall|x2: int, y2: int|
                0 <= x2 < w && 0 <= y2 < y ==> #[trigger] plane_at(dst@, ds, x2, y2) == plane_at(
                    src@,
                    ss,
                    x2,
                    y2,
                ),
            forall|x2: int, y2: int|
                w <= x2 < ds && 0 <= y2 < y ==> #[trigger] plane_at(dst@, ds, x2, y2) == 0u16,
        decreases height - y,
    {
        let mut x: usize = 0;
        while x < dst_stride
            invariant
                x <= dst_stride,
                y < height,
                dst.len() == y * dst_stride + x,
                forall|x2: int, y2: int|
                    0 <= x2 < w && 0 <= y2 < y ==> #[trigger] plane_at(dst@, ds, x2, y2)
                        == plane_at(src@, ss, x2, y2),
                forall|x2: int, y2: int|
                    w <= x2 < ds && 0 <= y2 < y ==> #[trigger] plane_at(dst@, ds, x2, y2) == 0u16,
                forall|x2: int|
                    0 <= x2 < x && x2 < w ==> #[trigger] plane_at(dst@, ds, x2, y as int)
                        == plane_at(src@, ss, x2, y as int),
                forall|x2: int|
                    w <= x2 < x ==> #[trigger] plane_at(dst@, ds, x2, y as int) == 0u16,
            decreases dst_stride - x,
        {
            let val: u16 = if x < width {
                proof {
                    lemma_plane_index_bounds(
                        src.len() as int,
                        w,
                        h,
                        ss,
                        x as int,
                        y as int,
                    );
                }
                src[y * src_stride + x]
            } else {
                0
            };
            let ghost d0 = dst@;
            dst.push(val);
            proof {
                assert forall|x2: int, y2: int|
                    0 <= x2 < w && 0 <= y2 < y implies #[trigger] plane_at(dst@, ds, x2, y2)
                    == plane_at(src@, ss, x2, y2) by {
                    lemma_row_major_lt(ds, x2, y2, x as int, y as int);
                    assert(plane_at(d0, ds, x2, y2) == plane_at(src@, ss, x2, y2));
                    assert(dst@[y2 * ds + x2] == d0[y2 * ds + x2]);
                }
                assert forall|x2: int, y2: int|
                    w <= x2 < ds && 0 <= y2 < y implies #[trigger] plane_at(dst@, ds, x2, y2)
                    == 0u16 by {
                    lemma_row_major_lt(ds, x2, y2, x as int, y as int);
                    assert(plane_at(d0, ds, x2, y2) == 0u16);
                    assert(dst@[y2 * ds + x2] == d0[y2 * ds + x2]);
                }
                assert forall|x2: int| 0 <= x2 < x + 1 && x2 < w implies #[trigger] plane_at(
                    dst@,
                    ds,
                    x2,
                    y as int,
                ) == plane_at(src@, ss, x2, y as int) by {
                    if x2 < x {
                        lemma_row_major_lt(ds, x2, y as int, x as int, y as int);
                        assert(plane_at(d0, ds, x2, y as int) == plane_at(src@, ss, x2, y as int));
                        assert(dst@[y * ds + x2] == d0[y * ds + x2]);
                    } else {
                        assert(dst@[y * ds + x as int] == val);
                    }
                }
                assert forall|x2: int| w <= x2 < x + 1 implies #[trigger] plane_at(
                    dst@,
                    ds,
                    x2,
                    y as int,
                ) == 0u16 by {
                    if x2 < x {
                        lemma_row_major_lt(ds, x2, y as int, x as int, y as int);
                        assert(plane_at(d0, ds, x2, y as int) == 0u16);
                        assert(dst@[y * ds + x2] == d0[y * ds + x2]);
                    } else {
                        assert(dst@[y * ds + x as int] == val);
                    }
                }
            }
            x += 1;
        }
        proof {
            lemma_next_row(dst_stride as int, y as int);
        }
        y += 1;
    }
    dst
}

/// Hysteresis for one processed 16-bit plane: an output sample is `peak`
/// exactly when its pixel is seed-connected, `0` otherwise; padding samples
/// are `0`.
pub fn flood_plane_u16(
    seed: &Vec<u16>,
    cand: &Vec<u16>,
    width: usize,
    height: usize,
    seed_stride: usize,
    cand_stride: usize,
    dst_stride: usize,
    peak: u16,
) -> (dst: Vec<u16>)
    requires
        plane_fits(seed.len() as int, width as int, height as int, seed_stride as int),
        plane_fits(cand.len() as int, width as int, height as int, cand_stride as int),
        width <= dst_stride,
        height * dst_stride <= usize::MAX,
        peak > 0,
    ensures
        dst.len() == height * dst_stride,
        forall|x: int, y: int|
            in_grid(width as int, height as int, x, y) ==> #[trigger] plane_at(
                dst@,
                dst_stride as int,
                x,
                y,
            ) == (if seed_connected(
                plane_view_u16(seed@, width as int, height as int, seed_stride as int),
                plane_view_u16(cand@, width as int, height as int, cand_stride as int),
                width as int,
                height as int,
                x,
                y,
            ) {
                peak
            } else {
                0u16
            }),
        forall|x: int, y: int|
            0 <= y < height && width <= x < dst_stride ==> #[trigger] plane_at(
                dst@,
                dst_stride as int,
                x,
                y,
            ) == 0u16,
{
    let ghost w = width as int;
    let ghost h = height as int;
    let sm = threshold_u16(seed, width, height, seed_stride);
    let cm = threshold_u16(cand, width, height, cand_stride);
    let fm = flood_mask(&sm, &cm, width, height);
    proof {
        assert forall|q: (int, int)| #![auto] mask_view(sm@, w, h).dom().contains(q) implies
            mask_view(sm@, w, h)[q] == plane_view_u16(seed@, w, h, seed_stride as int)[q] by {
            assert(plane_at(sm@, w, q.0, q.1) == (plane_at(seed@, seed_stride as int, q.0, q.1)
                > 0));
        }
        assert(mask_view(sm@, w, h) =~= plane_view_u16(seed@, w, h, seed_stride as int));
        assert forall|q: (int, int)| #![auto] mask_view(cm@, w, h).dom().contains(q) implies
            mask_view(cm@, w, h)[q] == plane_view_u16(cand@, w, h, cand_stride as int)[q] by {
            assert(plane_at(cm@, w, q.0, q.1) == (plane_at(cand@, cand_stride as int, q.0, q.1)
                > 0));
        }
        assert(mask_view(cm@, w, h) =~= plane_view_u16(cand@, w, h, cand_stride as int));
    }
    expand_u16(&fm, width, height, dst_stride, peak)
}

/// One output plane of a frame: flood-filled when the plane is marked for
/// processing, a straight copy of the seed plane otherwise.
pub fn plane_output_u16(
    process: bool,
    seed: &Vec<u16>,
    cand: &Vec<u16>,
    width: usize,
    height: usize,
    seed_stride: usize,
    cand_stride: usize,
    dst_stride: usize,
    peak: u16,
) -> (dst: Vec<u16>)
    requires
        plane_fits(seed.len() as int, width as int, height as int, seed_stride as int),
        plane_fits(cand.len() as int, width as int, height as int, cand_stride as int),
        width <= dst_stride,
        height * dst_stride <= usize::MAX,
        peak > 0,
    ensures
        dst.len() == height * dst_stride,
        process ==> forall|x: int, y: int|
            in_grid(width as int, height as int, x, y) ==> #[trigger] plane_at(
                dst@,
                dst_stride as int,
                x,
                y,
            ) == (if seed_connected(
                plane_view_u16(seed@, width as int, height as int, seed_stride as int),
                plane_view_u16(cand@, width as int, height as int, cand_stride as int),
                width as int,
                height as int,
                x,
                y,
            ) {
                peak
            } else {
                0u16
            }),
        !process ==> forall|x: int, y: int|
            in_grid(width as int, height as int, x, y) ==> #[trigger] plane_at(
                dst@,
                dst_stride as int,
                x,
                y,
            ) == plane_at(seed@, seed_stride as int, x, y),
        forall|x: int, y: int|
            0 <= y < height && width <= x < dst_stride ==> #[trigger] plane_at(
                dst@,
                dst_stride as int,
                x,
                y,
            ) == 0u16,
{
    if process {
        flood_plane_u16(seed, cand, width, height, seed_stride, cand_stride, dst_stride, peak)
    } else {
        copy_plane_u16(seed, width, height, seed_stride, dst_stride)
    }
}


/// Peak independence: two seed/candidate pairs that agree on which samples
/// are strictly positive — whether the "on" samples hold the peak value or
/// any other positive value — have the same seed-connectivity everywhere,
/// since thresholding compares against zero, not against the peak.
pub proof fn lemma_peak_independence_u8(
    s1: Seq<u8>,
    c1: Seq<u8>,
    s2: Seq<u8>,
    c2: Seq<u8>,
    w: int,
    h: int,
    ss1: int,
    cs1: int,
    ss2: int,
    cs2: int,
)
    requires
        forall|x: int, y: int|
            in_grid(w, h, x, y) ==> ((#[trigger] plane_at(s1, ss1, x, y)) > 0) == (plane_at(
                s2,
                ss2,
                x,
                y,
            ) > 0),
        forall|x: int, y: int|
            in_grid(w, h, x, y) ==> ((#[trigger] plane_at(c1, cs1, x, y)) > 0) == (plane_at(
                c2,
                cs2,
                x,
                y,
            ) > 0),
    ensures
        forall|x: int, y: int|
            #[trigger] in_grid(w, h, x, y) ==> seed_connected(
                plane_view_u8(s1, w, h, ss1),
                plane_view_u8(c1, w, h, cs1),
                w,
                h,
                x,
                y,
            ) == seed_connected(
                plane_view_u8(s2, w, h, ss2),
                plane_view_u8(c2, w, h, cs2),
                w,
                h,
                x,
                y,
            ),
{
    assert forall|q: (int, int)| #![auto] plane_view_u8(s1, w, h, ss1).dom().contains(q) implies
        plane_view_u8(s1, w, h, ss1)[q] == plane_view_u8(s2, w, h, ss2)[q] by {
        assert(in_grid(w, h, q.0, q.1));
        assert((plane_at(s1, ss1, q.0, q.1) > 0) == (plane_at(s2, ss2, q.0, q.1) > 0));
    }
    assert(plane_view_u8(s1, w, h, ss1) =~= plane_view_u8(s2, w, h, ss2));
    assert forall|q: (int, int)| #![auto] plane_view_u8(c1, w, h, cs1).dom().contains(q) implies
        plane_view_u8(c1, w, h, cs1)[q] == plane_view_u8(c2, w, h, cs2)[q] by {
        assert(in_grid(w, h, q.0, q.1));
        assert((plane_at(c1, cs1, q.0, q.1) > 0) == (plane_at(c2, cs2, q.0, q.1) > 0));
    }
    assert(plane_view_u8(c1, w, h, cs1) =~= plane_view_u8(c2, w, h, cs2));
}


/// Peak independence: two seed/candidate pairs that agree on which samples
/// are strictly positive — whether the "on" samples hold the peak value or
/// any other positive value — have the same seed-connectivity everywhere,
/// since thresholding compares against zero, not against the peak.
pub proof fn lemma_peak_independence_u16(
    s1: Seq<u16>,
    c1: Seq<u16>,
    s2: Seq<u16>,
    c2: Seq<u16>,
    w: int,
    h: int,
    ss1: int,
    cs1: int,
    ss2: int,
    cs2: int,
)
    requires
        forall|x: int, y: int|
            in_grid(w, h, x, y) ==> ((#[trigger] plane_at(s1, ss1, x, y)) > 0) == (plane_at(
                s2,
                ss2,
                x,
                y,
            ) > 0),
        forall|x: int, y: int|
            in_grid(w, h, x, y) ==> ((#[trigger] plane_at(c1, cs1, x, y)) > 0) == (plane_at(
                c2,
                cs2,
                x,
                y,
            ) > 0),
    ensures
        forall|x: int, y: int|
            #[trigger] in_grid(w, h, x, y) ==> seed_connected(
                plane_view_u16(s1, w, h, ss1),
                plane_view_u16(c1, w, h, cs1),
                w,
                h,
                x,
                y,
            ) == seed_connected(
                plane_view_u16(s2, w, h, ss2),
                plane_view_u16(c2, w, h, cs2),
                w,
                h,
                x,
                y,
            ),
{
    assert forall|q: (int, int)| #![auto] plane_view_u16(s1, w, h, ss1).dom().contains(q) implies
        plane_view_u16(s1, w, h, ss1)[q] == plane_view_u16(s2, w, h, ss2)[q] by {
        assert(in_grid(w, h, q.0, q.1));
        assert((plane_at(s1, ss1, q.0, q.1) > 0) == (plane_at(s2, ss2, q.0, q.1) > 0));
    }
    assert(plane_view_u16(s1, w, h, ss1) =~= plane_view_u16(s2, w, h, ss2));
    assert forall|q: (int, int)| #![auto] plane_view_u16(c1, w, h, cs1).dom().contains(q) implies
        plane_view_u16(c1, w, h, cs1)[q] == plane_view_u16(c2, w, h, cs2)[q] by {
        assert(in_grid(w, h, q.0, q.1));
        assert((plane_at(c1, cs1, q.0, q.1) > 0) == (plane_at(c2, cs2, q.0, q.1) > 0));
    }
    assert(plane_view_u16(c1, w, h, cs1) =~= plane_view_u16(c2, w, h, cs2));
}

} // verus!
