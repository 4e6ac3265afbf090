use vstd::prelude::*;

verus! {

/// Whether `(x, y)` lies inside a `w` by `h` pixel grid.
pub open spec fn in_grid(w: int, h: int, x: int, y: int) -> bool {
    0 <= x < w && 0 <= y < h
}

/// The sample of a plane buffer at column `x` of row `y`, with rows laid out
/// `stride` samples apart.
pub open spec fn plane_at<T>(s: Seq<T>, stride: int, x: int, y: int) -> T {
    s[y * stride + x]
}

/// 8-neighbour adjacency: two distinct pixels whose coordinates differ by at
/// most one in each direction, diagonals included.
pub open spec fn adjacent(a: (int, int), b: (int, int)) -> bool {
    &&& a != b
    &&& -1 <= b.0 - a.0 <= 1
    &&& -1 <= b.1 - a.1 <= 1
}

/// The view of a bi-level plane held as a dense mask of width `w`: which
/// in-grid pixels are "on".
pub open spec fn mask_view(m: Seq<bool>, w: int, h: int) -> Map<(int, int), bool> {
    Map::new(|q: (int, int)| in_grid(w, h, q.0, q.1), |q: (int, int)| plane_at(m, w, q.0, q.1))
}

/// A path of pixels, all inside the grid and "on" in `cand`, each consecutive
/// pair 8-adjacent.
pub open spec fn is_cand_path(
    cand: Map<(int, int), bool>,
    w: int,
    h: int,
    p: Seq<(int, int)>,
) -> bool {
    &&& p.len() > 0
    &&& forall|k: int|
        0 <= k < p.len() ==> in_grid(w, h, (#[trigger] p[k]).0, p[k].1) && cand[p[k]]
    &&& forall|k: int| 1 <= k < p.len() ==> adjacent(p[k - 1], #[trigger] p[k])
}

/// A candidate path leads from `a` to `b`.
pub open spec fn linked(
    cand: Map<(int, int), bool>,
    w: int,
    h: int,
    a: (int, int),
    b: (int, int),
) -> bool {
    exists|p: Seq<(int, int)>| #[trigger] is_cand_path(cand, w, h, p) && p[0] == a && p.last() == b
}

/// The pixels owed "on" in the output: those at the end of a candidate path
/// that starts on a pixel also "on" in the seed mask.
pub open spec fn seed_connected(
    seed: Map<(int, int), bool>,
    cand: Map<(int, int), bool>,
    w: int,
    h: int,
    x: int,
    y: int,
) -> bool {
    exists|p: Seq<(int, int)>|
        #[trigger] is_cand_path(cand, w, h, p) && seed[p[0]] && p.last() == (x, y)
}

proof fn lemma_grid_index_bounds(w: int, h: int, x: int, y: int)
    requires
        in_grid(w, h, x, y),
    ensures
        0 <= y * w + x < w * h,
{
    assert(0 <= y * w + x < w * h) by (nonlinear_arith)
        requires 0 <= x < w, 0 <= y < h;
}

proof fn lemma_grid_index_injective(w: int, x1: int, y1: int, x2: int, y2: int)
    requires
        0 <= x1 < w,
        0 <= x2 < w,
        y1 * w + x1 == y2 * w + x2,
    ensures
        x1 == x2 && y1 == y2,
{
    assert(x1 == x2 && y1 == y2) by (nonlinear_arith)
        requires 0 <= x1 < w, 0 <= x2 < w, y1 * w + x1 == y2 * w + x2;
}

/// Pointwise effect of writing one in-grid pixel of a dense mask.
proof fn lemma_mask_update(m: Seq<bool>, w: int, h: int, x: int, y: int, v: bool)
    requires
        m.len() == w * h,
        in_grid(w, h, x, y),
    ensures
        forall|x2: int, y2: int|
            in_grid(w, h, x2, y2) ==> #[trigger] plane_at(m.update(y * w + x, v), w, x2, y2) == (
            if x2 == x && y2 == y {
                v
            } else {
                plane_at(m, w, x2, y2)
            }),
{
    lemma_grid_index_bounds(w, h, x, y);
    assert forall|x2: int, y2: int| in_grid(w, h, x2, y2) implies #[trigger] plane_at(
        m.update(y * w + x, v),
        w,
        x2,
        y2,
    ) == (if x2 == x && y2 == y {
        v
    } else {
        plane_at(m, w, x2, y2)
    }) by {
        lemma_grid_index_bounds(w, h, x2, y2);
        if y2 * w + x2 == y * w + x {
            lemma_grid_index_injective(w, x, y, x2, y2);
        }
    }
}

/// The mask view agrees with the buffer at every in-grid pixel.
proof fn lemma_mask_view_at(m: Seq<bool>, w: int, h: int, x: int, y: int)
    requires
        in_grid(w, h, x, y),
    ensures
        mask_view(m, w, h)[(x, y)] == plane_at(m, w, x, y),
{
    assert(mask_view(m, w, h).dom().contains((x, y)));
}

/// A pixel "on" in both masks is seed-connected, by the one-pixel path.
pub proof fn lemma_seed_connected_here(
    seed: Map<(int, int), bool>,
    cand: Map<(int, int), bool>,
    w: int,
    h: int,
    x: int,
    y: int,
)
    requires
        in_grid(w, h, x, y),
        seed[(x, y)],
        cand[(x, y)],
    ensures
        seed_connected(seed, cand, w, h, x, y),
{
    let p: Seq<(int, int)> = seq![(x, y)];
    assert(p[0] == (x, y));
    assert(p.last() == (x, y));
    assert(is_cand_path(cand, w, h, p));
}

/// Seed-connectivity propagates across one 8-adjacent candidate-"on" step;
/// in particular a diagonal-only connection counts as connected.
pub proof fn lemma_seed_connected_extend(
    seed: Map<(int, int), bool>,
    cand: Map<(int, int), bool>,
    w: int,
    h: int,
    x: int,
    y: int,
    x2: int,
    y2: int,
)
    requires
        seed_connected(seed, cand, w, h, x, y),
        in_grid(w, h, x2, y2),
        adjacent((x, y), (x2, y2)),
        cand[(x2, y2)],
    ensures
        seed_connected(seed, cand, w, h, x2, y2),
{
    let p = choose|p: Seq<(int, int)>|
        #[trigger] is_cand_path(cand, w, h, p) && seed[p[0]] && p.last() == (x, y);
    let q = p.push((x2, y2));
    assert(q[0] == p[0]);
    assert(q.last() == (x2, y2));
    assert forall|k: int| 0 <= k < q.len() implies in_grid(w, h, (#[trigger] q[k]).0, q[k].1)
        && cand[q[k]] by {
        if k < p.len() {
            assert(q[k] == p[k]);
        } else {
            assert(q[k] == (x2, y2));
        }
    }
    assert forall|k: int| 1 <= k < q.len() implies adjacent(q[k - 1], #[trigger] q[k]) by {
        if k < p.len() {
            assert(q[k] == p[k]);
            assert(q[k - 1] == p[k - 1]);
        } else {
            assert(q[k - 1] == p[p.len() - 1]);
            assert(p.last() == (x, y));
        }
    }
    assert(is_cand_path(cand, w, h, q));
}

/// A diagonal-only connection counts: a candidate-"on" pixel sharing only a
/// corner with a seed-connected pixel is itself seed-connected.
pub proof fn lemma_diagonal_connected(
    seed: Map<(int, int), bool>,
    cand: Map<(int, int), bool>,
    w: int,
    h: int,
    x: int,
    y: int,
)
    requires
        seed_connected(seed, cand, w, h, x, y),
        in_grid(w, h, x + 1, y + 1),
        cand[(x + 1, y + 1)],
    ensures
        seed_connected(seed, cand, w, h, x + 1, y + 1),
{
    lemma_seed_connected_extend(seed, cand, w, h, x, y, x + 1, y + 1);
}

/// A seed-connected pixel lies in the grid, is candidate-"on", and some pixel
/// "on" in both masks is linked to it by a candidate path.
pub proof fn lemma_seed_connected_witness(
    seed: Map<(int, int), bool>,
    cand: Map<(int, int), bool>,
    w: int,
    h: int,
    x: int,
    y: int,
)
    requires
        seed_connected(seed, cand, w, h, x, y),
    ensures
        in_grid(w, h, x, y),
        cand[(x, y)],
        exists|a: (int, int)|
            in_grid(w, h, a.0, a.1) && (#[trigger] seed[a]) && cand[a] && linked(
                cand,
                w,
                h,
                a,
                (x, y),
            ),
{
    let p = choose|p: Seq<(int, int)>|
        #[trigger] is_cand_path(cand, w, h, p) && seed[p[0]] && p.last() == (x, y);
    assert(p[p.len() - 1] == p.last());
    assert(in_grid(w, h, p[p.len() - 1].0, p[p.len() - 1].1) && cand[p[p.len() - 1]]);
    let a = p[0];
    assert(in_grid(w, h, a.0, a.1) && cand[a]);
    assert(linked(cand, w, h, a, (x, y)));
}

/// Non-leakage: a pixel to which no seed-"on" pixel is linked by any
/// candidate path is not seed-connected, so a whole candidate-connected
/// component without a seed-"on" member stays absent from the output.
pub proof fn lemma_non_leakage(
    seed: Map<(int, int), bool>,
    cand: Map<(int, int), bool>,
    w: int,
    h: int,
    x: int,
    y: int,
)
    requires
        forall|a: (int, int)| linked(cand, w, h, a, (x, y)) ==> !(#[trigger] seed[a]),
    ensures
        !seed_connected(seed, cand, w, h, x, y),
{
    if seed_connected(seed, cand, w, h, x, y) {
        let p = choose|p: Seq<(int, int)>|
            #[trigger] is_cand_path(cand, w, h, p) && seed[p[0]] && p.last() == (x, y);
        assert(linked(cand, w, h, p[0], (x, y)));
        assert(false);
    }
}

/// Every pixel already marked has a seed path: the output never exceeds what
/// is owed.
spec fn sound(out: Seq<bool>, sv: Map<(int, int), bool>, cv: Map<(int, int), bool>, w: int, h: int) -> bool {
    forall|x: int, y: int|
        in_grid(w, h, x, y) && #[trigger] plane_at(out, w, x, y) ==> seed_connected(
            sv,
            cv,
            w,
            h,
            x,
            y,
        )
}

/// Every stack entry is an in-grid pixel already marked in the output.
spec fn stack_ok(st: Seq<(usize, usize)>, out: Seq<bool>, w: int, h: int) -> bool {
    forall|k: int|
        0 <= k < st.len() ==> in_grid(w, h, (#[trigger] st[k]).0 as int, st[k].1 as int)
            && plane_at(out, w, st[k].0 as int, st[k].1 as int)
}

/// Whether `(x, y)` occurs in the work stack.
spec fn in_stack(st: Seq<(usize, usize)>, x: int, y: int) -> bool {
    exists|k: int| 0 <= k < st.len() && (#[trigger] st[k]).0 as int == x && st[k].1 as int == y
}

/// Every marked pixel not waiting on the stack already has all its
/// candidate-"on" neighbours marked.
spec fn closed_except(
    out: Seq<bool>,
    cv: Map<(int, int), bool>,
    w: int,
    h: int,
    st: Seq<(usize, usize)>,
) -> bool {
    forall|ax: int, ay: int, bx: int, by: int|
        #![trigger plane_at(out, w, ax, ay), in_grid(w, h, bx, by)]
        in_grid(w, h, ax, ay) && plane_at(out, w, ax, ay) && !in_stack(st, ax, ay) && in_grid(
            w,
            h,
            bx,
            by,
        ) && adjacent((ax, ay), (bx, by)) && cv[(bx, by)] ==> plane_at(out, w, bx, by)
}

/// With an empty stack the marking is closed under candidate adjacency.
spec fn closed(out: Seq<bool>, cv: Map<(int, int), bool>, w: int, h: int) -> bool {
    forall|ax: int, ay: int, bx: int, by: int|
        #![trigger plane_at(out, w, ax, ay), in_grid(w, h, bx, by)]
        in_grid(w, h, ax, ay) && plane_at(out, w, ax, ay) && in_grid(w, h, bx, by) && adjacent(
            (ax, ay),
            (bx, by),
        ) && cv[(bx, by)] ==> plane_at(out, w, bx, by)
}

/// Pushing onto the stack adds exactly one membership.
proof fn lemma_in_stack_push(st: Seq<(usize, usize)>, e: (usize, usize), x: int, y: int)
    ensures
        in_stack(st.push(e), x, y) == (in_stack(st, x, y) || (e.0 as int == x && e.1 as int
            == y)),
{
    if in_stack(st, x, y) {
        let k = choose|k: int|
            0 <= k < st.len() && (#[trigger] st[k]).0 as int == x && st[k].1 as int == y;
        assert(st.push(e)[k] == st[k]);
    }
    if e.0 as int == x && e.1 as int == y {
        assert(st.push(e)[st.len() as int] == e);
    }
    if in_stack(st.push(e), x, y) {
        let k = choose|k: int|
            0 <= k < st.push(e).len() && (#[trigger] st.push(e)[k]).0 as int == x && st.push(
                e,
            )[k].1 as int == y;
        if k < st.len() {
            assert(st[k] == st.push(e)[k]);
        }
    }
}

/// Along a candidate path, a closed marking that holds at the start holds at
/// the end.
proof fn lemma_path_end_marked(
    out: Seq<bool>,
    cv: Map<(int, int), bool>,
    w: int,
    h: int,
    p: Seq<(int, int)>,
)
    requires
        is_cand_path(cv, w, h, p),
        closed(out, cv, w, h),
        plane_at(out, w, p[0].0, p[0].1),
    ensures
        plane_at(out, w, p.last().0, p.last().1),
    decreases p.len(),
{
    if p.len() == 1 {
        assert(p.last() == p[0]);
    } else {
        let q = p.drop_last();
        assert forall|k: int| 0 <= k < q.len() implies in_grid(w, h, (#[trigger] q[k]).0, q[k].1)
            && cv[q[k]] by {
            assert(q[k] == p[k]);
        }
        assert forall|k: int| 1 <= k < q.len() implies adjacent(q[k - 1], #[trigger] q[k]) by {
            assert(q[k] == p[k]);
            assert(q[k - 1] == p[k - 1]);
        }
        assert(is_cand_path(cv, w, h, q));
        assert(q[0] == p[0]);
        lemma_path_end_marked(out, cv, w, h, q);
        let n = p.len() - 1;
        assert(q.last() == p[n - 1]);
        assert(adjacent(p[n - 1], p[n]));
        assert(in_grid(w, h, (p[n]).0, (p[n]).1) && cv[p[n]]);
        assert(cv[((p[n]).0, (p[n]).1)] == cv[p[n]]);
        assert(plane_at(out, w, p.last().0, p.last().1));
    }
}

/// A closed marking that covers every pixel "on" in both masks covers every
/// seed-connected pixel.
proof fn lemma_connected_implies_marked(
    out: Seq<bool>,
    sv: Map<(int, int), bool>,
    cv: Map<(int, int), bool>,
    w: int,
    h: int,
    x: int,
    y: int,
)
    requires
        closed(out, cv, w, h),
        forall|ax: int, ay: int|
            in_grid(w, h, ax, ay) && (#[trigger] sv[(ax, ay)]) && cv[(ax, ay)] ==> plane_at(
                out,
                w,
                ax,
                ay,
            ),
        seed_connected(sv, cv, w, h, x, y),
    ensures
        plane_at(out, w, x, y),
{
    let p = choose|p: Seq<(int, int)>|
        #[trigger] is_cand_path(cv, w, h, p) && sv[p[0]] && p.last() == (x, y);
    assert(in_grid(w, h, p[0].0, p[0].1) && cv[p[0]]);
    assert(p[0] == (p[0].0, p[0].1));
    assert(plane_at(out, w, p[0].0, p[0].1));
    lemma_path_end_marked(out, cv, w, h, p);
    assert(p.last() == (x, y));
}

/// How many samples of a mask are still "off".
spec fn count_off(s: Seq<bool>) -> nat
    decreases s.len(),
{
    if s.len() == 0 {
        0
    } else {
        count_off(s.drop_last()) + (if s.last() {
            0nat
        } else {
            1nat
        })
    }
}

/// Turning one "off" sample "on" lowers the "off" count by one.
proof fn lemma_count_off_update(s: Seq<bool>, i: int)
    requires
        0 <= i < s.len(),
        !s[i],
    ensures
        count_off(s.update(i, true)) + 1 == count_off(s),
    decreases s.len(),
{
    let t = s.update(i, true);
    if i == s.len() - 1 {
        assert(t.drop_last() =~= s.drop_last());
        assert(t.last());
        assert(!s.last());
    } else {
        assert(t.drop_last() =~= s.drop_last().update(i, true));
        assert(!s.drop_last()[i]);
        lemma_count_off_update(s.drop_last(), i);
        assert(t.last() == s.last());
    }
}

/// The pixels "on" in both masks that the scan has already passed, in
/// row-major order up to (but excluding) column `xc` of row `yc`, are all
/// marked in the output.
spec fn swept(
    out: Seq<bool>,
    sv: Map<(int, int), bool>,
    cv: Map<(int, int), bool>,
    w: int,
    h: int,
    yc: int,
    xc: int,
) -> bool {
    forall|x: int, y: int|
        #![trigger plane_at(out, w, x, y)]
        in_grid(w, h, x, y) && (y < yc || (y == yc && x < xc)) && sv[(x, y)] && cv[(x, y)]
            ==> plane_at(out, w, x, y)
}

/// Marks and stacks every unmarked candidate-"on" neighbour of `(px, py)`,
/// restoring closure for that pixel.
#[verifier::loop_isolation(false)]
fn visit_neighbors(
    cand: &Vec<bool>,
    width: usize,
    height: usize,
    px: usize,
    py: usize,
    out: &mut Vec<bool>,
    st: &mut Vec<(usize, usize)>,
    Ghost(sv): Ghost<Map<(int, int), bool>>,
    Ghost(cv): Ghost<Map<(int, int), bool>>,
)
    requires
        cand.len() == width * height,
        old(out).len() == width * height,
        cv == mask_view(cand@, width as int, height as int),
        in_grid(width as int, height as int, px as int, py as int),
        plane_at(old(out)@, width as int, px as int, py as int),
        seed_connected(sv, cv, width as int, height as int, px as int, py as int),
        sound(old(out)@, sv, cv, width as int, height as int),
        stack_ok(old(st)@, old(out)@, width as int, height as int),
        closed_except(old(out)@, cv, width as int, height as int, old(st)@.push((px, py))),
    ensures
        final(out).len() == width * height,
        sound(final(out)@, sv, cv, width as int, height as int),
        stack_ok(final(st)@, final(out)@, width as int, height as int),
        closed_except(final(out)@, cv, width as int, height as int, final(st)@),
        forall|x2: int, y2: int|
            in_grid(width as int, height as int, x2, y2) && plane_at(
                old(out)@,
                width as int,
                x2,
                y2,
            ) ==> #[trigger] plane_at(final(out)@, width as int, x2, y2),
        count_off(final(out)@) + final(st)@.len() == count_off(old(out)@) + old(st)@.len(),
{
    let ghost w = width as int;
    let ghost h = height as int;
    let y0: usize = if py >= 1 {
        py - 1
    } else {
        0
    };
    let y1: usize = if py + 1 < height {
        py + 1
    } else {
        height - 1
    };
    let x0: usize = if px >= 1 {
        px - 1
    } else {
        0
    };
    let x1: usize = if px + 1 < width {
        px + 1
    } else {
        width - 1
    };
    let mut yy: usize = y0;
    while yy <= y1
        invariant
            y0 <= yy <= y1 + 1,
            out.len() == width * height,
            plane_at(out@, w, px as int, py as int),
            sound(out@, sv, cv, w, h),
            stack_ok(st@, out@, w, h),
            closed_except(out@, cv, w, h, st@.push((px, py))),
            forall|x2: int, y2: int|
                in_grid(w, h, x2, y2) && plane_at(old(out)@, w, x2, y2) ==> #[trigger] plane_at(
                    out@,
                    w,
                    x2,
                    y2,
                ),
            count_off(out@) + st@.len() == count_off(old(out)@) + old(st)@.len(),
            forall|bx: int, by: int|
                x0 <= bx <= x1 && y0 <= by < yy && cv[(bx, by)] ==> #[trigger] plane_at(
                    out@,
                    w,
                    bx,
                    by,
                ),
        decreases y1 + 1 - yy,
    {
        let mut xx: usize = x0;
        while xx <= x1
            invariant
                x0 <= xx <= x1 + 1,
                yy <= y1,
                out.len() == width * height,
                plane_at(out@, w, px as int, py as int),
                sound(out@, sv, cv, w, h),
                stack_ok(st@, out@, w, h),
                closed_except(out@, cv, w, h, st@.push((px, py))),
                forall|x2: int, y2: int|
                    in_grid(w, h, x2, y2) && plane_at(old(out)@, w, x2, y2) ==> #[trigger] plane_at(
                        out@,
                        w,
                        x2,
                        y2,
                    ),
                count_off(out@) + st@.len() == count_off(old(out)@) + old(st)@.len(),
                forall|bx: int, by: int|
                    x0 <= bx <= x1 && y0 <= by < yy && cv[(bx, by)] ==> #[trigger] plane_at(
                        out@,
                        w,
                        bx,
                        by,
                    ),
                forall|bx: int|
                    x0 <= bx < xx && cv[(bx, yy as int)] ==> #[trigger] plane_at(
                        out@,
                        w,
                        bx,
                        yy as int,
                    ),
            decreases x1 + 1 - xx,
        {
            proof {
                lemma_grid_index_bounds(w, h, xx as int, yy as int);
            }
            let j: usize = yy * width + xx;
            if cand[j] && !out[j] {
                proof {
                    lemma_mask_view_at(cand@, w, h, xx as int, yy as int);
                    lemma_grid_index_bounds(w, h, px as int, py as int);
                    assert((xx as int, yy as int) != (px as int, py as int));
                    assert(adjacent((px as int, py as int), (xx as int, yy as int)));
                    lemma_seed_connected_extend(
                        sv,
                        cv,
                        w,
                        h,
                        px as int,
                        py as int,
                        xx as int,
                        yy as int,
                    );
                }
                let ghost o0 = out@;
                let ghost s0 = st@;
                out[j] = true;
                st.push((xx, yy));
                proof {
                    lemma_mask_update(o0, w, h, xx as int, yy as int, true);
                    lemma_count_off_update(o0, j as int);
                    assert forall|x2: int, y2: int|
                        in_grid(w, h, x2, y2) && #[trigger] plane_at(out@, w, x2, y2) implies
                        seed_connected(sv, cv, w, h, x2, y2) by {
                        if !(x2 == xx as int && y2 == yy as int) {
                            assert(plane_at(o0, w, x2, y2));
                        }
                    }
                    assert forall|k: int| 0 <= k < st@.len() implies in_grid(
                        w,
                        h,
                        (#[trigger] st@[k]).0 as int,
                        st@[k].1 as int,
                    ) && plane_at(out@, w, st@[k].0 as int, st@[k].1 as int) by {
                        if k < s0.len() {
                            assert(st@[k] == s0[k]);
                            assert(plane_at(o0, w, s0[k].0 as int, s0[k].1 as int));
                        } else {
                            assert(st@[k] == (xx, yy));
                        }
                    }
                    assert forall|ax: int, ay: int, bx: int, by: int|
                        #![trigger plane_at(out@, w, ax, ay), in_grid(w, h, bx, by)]
                        in_grid(w, h, ax, ay) && plane_at(out@, w, ax, ay) && !in_stack(
                            st@.push((px, py)),
                            ax,
                            ay,
                        ) && in_grid(w, h, bx, by) && adjacent((ax, ay), (bx, by)) && cv[(bx, by)]
                        implies plane_at(out@, w, bx, by) by {
                        lemma_in_stack_push(st@, (px, py), ax, ay);
                        lemma_in_stack_push(s0, (xx, yy), ax, ay);
                        lemma_in_stack_push(s0, (px, py), ax, ay);
                        assert(!(ax == xx as int && ay == yy as int));
                        assert(!in_stack(s0.push((px, py)), ax, ay));
                        assert(plane_at(o0, w, ax, ay));
                        assert(plane_at(o0, w, bx, by));
                        assert(plane_at(out@, w, bx, by));
                    }
                    assert forall|bx: int, by: int|
                        x0 <= bx <= x1 && y0 <= by < yy && cv[(bx, by)] implies #[trigger] plane_at(
                            out@,
                            w,
                            bx,
                            by,
                        ) by {
                        assert(in_grid(w, h, bx, by));
                        assert(plane_at(o0, w, bx, by));
                    }
                    assert forall|bx: int| x0 <= bx < xx && cv[(bx, yy as int)] implies #[trigger]
                        plane_at(out@, w, bx, yy as int) by {
                        assert(in_grid(w, h, bx, yy as int));
                        assert(plane_at(o0, w, bx, yy as int));
                    }
                    assert forall|x2: int, y2: int|
                        in_grid(w, h, x2, y2) && plane_at(old(out)@, w, x2, y2) implies #[trigger]
                        plane_at(out@, w, x2, y2) by {
                        assert(plane_at(o0, w, x2, y2));
                    }
                }
            }
            xx += 1;
        }
        yy += 1;
    }
    proof {
        assert forall|ax: int, ay: int, bx: int, by: int|
            #![trigger plane_at(out@, w, ax, ay), in_grid(w, h, bx, by)]
            in_grid(w, h, ax, ay) && plane_at(out@, w, ax, ay) && !in_stack(st@, ax, ay) && in_grid(
                w,
                h,
                bx,
                by,
            ) && adjacent((ax, ay), (bx, by)) && cv[(bx, by)] implies plane_at(out@, w, bx, by) by {
            if ax == px as int && ay == py as int {
                assert(x0 as int <= bx <= x1 as int);
                assert(y0 as int <= by <= y1 as int);
            } else {
                lemma_in_stack_push(st@, (px, py), ax, ay);
                assert(!in_stack(st@.push((px, py)), ax, ay));
            }
        }
    }
}

/// Drains the work stack, marking each reached candidate-"on" pixel, until
/// the marking is closed again.
#[verifier::loop_isolation(false)]
fn grow_component(
    cand: &Vec<bool>,
    width: usize,
    height: usize,
    out: &mut Vec<bool>,
    st: &mut Vec<(usize, usize)>,
    Ghost(sv): Ghost<Map<(int, int), bool>>,
    Ghost(cv): Ghost<Map<(int, int), bool>>,
)
    requires
        cand.len() == width * height,
        old(out).len() == width * height,
        cv == mask_view(cand@, width as int, height as int),
        sound(old(out)@, sv, cv, width as int, height as int),
        stack_ok(old(st)@, old(out)@, width as int, height as int),
        closed_except(old(out)@, cv, width as int, height as int, old(st)@),
    ensures
        final(out).len() == width * height,
        final(st)@.len() == 0,
        sound(final(out)@, sv, cv, width as int, height as int),
        closed_except(final(out)@, cv, width as int, height as int, final(st)@),
        forall|x2: int, y2: int|
            in_grid(width as int, height as int, x2, y2) && plane_at(
                old(out)@,
                width as int,
                x2,
                y2,
            ) ==> #[trigger] plane_at(final(out)@, width as int, x2, y2),
{
    let ghost w = width as int;
    let ghost h = height as int;
    while st.len() > 0
        invariant
            out.len() == width * height,
            sound(out@, sv, cv, w, h),
            stack_ok(st@, out@, w, h),
            closed_except(out@, cv, w, h, st@),
            forall|x2: int, y2: int|
                in_grid(w, h, x2, y2) && plane_at(old(out)@, w, x2, y2) ==> #[trigger] plane_at(
                    out@,
                    w,
                    x2,
                    y2,
                ),
        decreases count_off(out@) + st@.len(),
    {
        let ghost s_pre = st@;
        let ghost o_pre = out@;
        let top = st.pop().unwrap();
        proof {
            assert(s_pre[s_pre.len() - 1] == top);
            assert(st@.push(top) =~= s_pre);
            assert(in_grid(w, h, top.0 as int, top.1 as int));
            assert(plane_at(out@, w, top.0 as int, top.1 as int));
            assert(seed_connected(sv, cv, w, h, top.0 as int, top.1 as int));
            assert((top.0, top.1) == top);
        }
        visit_neighbors(cand, width, height, top.0, top.1, out, st, Ghost(sv), Ghost(cv));
        proof {
            assert forall|x2: int, y2: int|
                in_grid(w, h, x2, y2) && plane_at(old(out)@, w, x2, y2) implies #[trigger] plane_at(
                    out@,
                    w,
                    x2,
                    y2,
                ) by {
                assert(plane_at(o_pre, w, x2, y2));
            }
            assert(count_off(out@) + st@.len() < count_off(o_pre) + s_pre.len());
        }
    }
}

/// Grows the seed mask into the candidate mask.  The result is "on" exactly
/// on the pixels that are seed-connected: reachable from a pixel "on" in both
/// masks through a path of 8-adjacent candidate-"on" pixels.
#[verifier::loop_isolation(false)]
pub fn flood_mask(seed: &Vec<bool>, cand: &Vec<bool>, width: usize, height: usize) -> (out: Vec<
    bool,
>)
    requires
        seed.len() == width * height,
        cand.len() == width * height,
    ensures
        out.len() == width * height,
        forall|x: int, y: int|
            #[trigger] in_grid(width as int, height as int, x, y) ==> plane_at(
                out@,
                width as int,
                x,
                y,
            ) == seed_connected(
                mask_view(seed@, width as int, height as int),
                mask_view(cand@, width as int, height as int),
                width as int,
                height as int,
                x,
                y,
            ),
{
    let ghost w = width as int;
    let ghost h = height as int;
    let ghost sv = mask_view(seed@, w, h);
    let ghost cv = mask_view(cand@, w, h);
    let n: usize = width * height;
    let mut out: Vec<bool> = Vec::new();
    while out.len() < n
        invariant
            out@.len() <= n,
            forall|k: int| 0 <= k < out@.len() ==> !(#[trigger] out@[k]),
        decreases n - out@.len(),
    {
        out.push(false);
    }
    let mut st: Vec<(usize, usize)> = Vec::new();
    proof {
        assert forall|x2: int, y2: int| in_grid(w, h, x2, y2) implies !(#[trigger] plane_at(
            out@,
            w,
            x2,
            y2,
        )) by {
            lemma_grid_index_bounds(w, h, x2, y2);
        }
    }
    let mut y: usize = 0;
    while y < height
        invariant
            y <= height,
            out.len() == n,
            st@.len() == 0,
            sound(out@, sv, cv, w, h),
            closed_except(out@, cv, w, h, st@),
            swept(out@, sv, cv, w, h, y as int, 0),
        decreases height - y,
    {
        let mut x: usize = 0;
        while x < width
            invariant
                x <= width,
                y < height,
                out.len() == n,
                st@.len() == 0,
                sound(out@, sv, cv, w, h),
                closed_except(out@, cv, w, h, st@),
                swept(out@, sv, cv, w, h, y as int, x as int),
            decreases width - x,
        {
            proof {
                lemma_grid_index_bounds(w, h, x as int, y as int);
                lemma_mask_view_at(seed@, w, h, x as int, y as int);
                lemma_mask_view_at(cand@, w, h, x as int, y as int);
            }
            let i: usize = y * width + x;
            if seed[i] && cand[i] && !out[i] {
                proof {
                    lemma_seed_connected_here(sv, cv, w, h, x as int, y as int);
                }
                let ghost o0 = out@;
                let ghost s0 = st@;
                out[i] = true;
                st.push((x, y));
                proof {
                    lemma_mask_update(o0, w, h, x as int, y as int, true);
                    assert forall|x2: int, y2: int|
                        in_grid(w, h, x2, y2) && #[trigger] plane_at(out@, w, x2, y2) implies
                        seed_connected(sv, cv, w, h, x2, y2) by {
                        if !(x2 == x as int && y2 == y as int) {
                            assert(plane_at(o0, w, x2, y2));
                        }
                    }
                    assert forall|k: int| 0 <= k < st@.len() implies in_grid(
                        w,
                        h,
                        (#[trigger] st@[k]).0 as int,
                        st@[k].1 as int,
                    ) && plane_at(out@, w, st@[k].0 as int, st@[k].1 as int) by {
                        assert(st@[k] == (x, y));
                    }
                    assert forall|ax: int, ay: int, bx: int, by: int|
                        #![trigger plane_at(out@, w, ax, ay), in_grid(w, h, bx, by)]
                        in_grid(w, h, ax, ay) && plane_at(out@, w, ax, ay) && !in_stack(
                            st@,
                            ax,
                            ay,
                        ) && in_grid(w, h, bx, by) && adjacent((ax, ay), (bx, by)) && cv[(bx, by)]
                        implies plane_at(out@, w, bx, by) by {
                        lemma_in_stack_push(s0, (x, y), ax, ay);
                        assert(st@ == s0.push((x, y)));
                        assert(!(ax == x as int && ay == y as int));
                        assert(plane_at(o0, w, ax, ay));
                        assert(!in_stack(s0, ax, ay));
                        assert(plane_at(o0, w, bx, by));
                    }
                }
                let ghost o1 = out@;
                grow_component(cand, width, height, &mut out, &mut st, Ghost(sv), Ghost(cv));
                proof {
                    assert(plane_at(out@, w, x as int, y as int));
                    assert forall|x2: int, y2: int|
                        #![trigger plane_at(out@, w, x2, y2)]
                        in_grid(w, h, x2, y2) && (y2 < y as int || (y2 == y as int && x2 < x as int
                            + 1)) && sv[(x2, y2)] && cv[(x2, y2)] implies plane_at(
                            out@,
                            w,
                            x2,
                            y2,
                        ) by {
                        if !(x2 == x as int && y2 == y as int) {
                            assert(plane_at(o0, w, x2, y2));
                            assert(plane_at(o1, w, x2, y2));
                        }
                    }
                }
            } else {
                proof {
                    assert forall|x2: int, y2: int|
                        #![trigger plane_at(out@, w, x2, y2)]
                        in_grid(w, h, x2, y2) && (y2 < y as int || (y2 == y as int && x2 < x as int
                            + 1)) && sv[(x2, y2)] && cv[(x2, y2)] implies plane_at(
                            out@,
                            w,
                            x2,
                            y2,
                        ) by {
                    }
                }
            }
            x += 1;
        }
        y += 1;
        proof {
            assert forall|x2: int, y2: int|
                #![trigger plane_at(out@, w, x2, y2)]
                in_grid(w, h, x2, y2) && (y2 < y as int || (y2 == y as int && x2 < 0)) && sv[(
                    x2,
                    y2,
                )] && cv[(x2, y2)] implies plane_at(out@, w, x2, y2) by {
            }
        }
    }
    proof {
        assert forall|ax: int, ay: int, bx: int, by: int|
            #![trigger plane_at(out@, w, ax, ay), in_grid(w, h, bx, by)]
            in_grid(w, h, ax, ay) && plane_at(out@, w, ax, ay) && in_grid(w, h, bx, by) && adjacent(
                (ax, ay),
                (bx, by),
            ) && cv[(bx, by)] implies plane_at(out@, w, bx, by) by {
            assert(!in_stack(st@, ax, ay));
        }
        assert(closed(out@, cv, w, h));
        assert forall|x2: int, y2: int| #[trigger] in_grid(w, h, x2, y2) implies plane_at(
            out@,
            w,
            x2,
            y2,
        ) == seed_connected(sv, cv, w, h, x2, y2) by {
            if seed_connected(sv, cv, w, h, x2, y2) {
                assert forall|ax: int, ay: int|
                    in_grid(w, h, ax, ay) && (#[trigger] sv[(ax, ay)]) && cv[(ax, ay)] implies
                    plane_at(out@, w, ax, ay) by {
                }
                lemma_connected_implies_marked(out@, sv, cv, w, h, x2, y2);
            }
        }
    }
    out
}

} // verus!
