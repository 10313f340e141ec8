//! Barycentric triangle rasterization with depth testing.
//!
//! A triangle is filled by scanning its integer bounding box. A pixel is
//! covered when each of the three sub-triangle signed areas (the
//! shoelace area with the pixel substituted for one vertex in turn) is
//! zero or agrees in sign with the whole triangle's area: boundary
//! pixels, where a barycentric weight is exactly zero, are included, for
//! either winding. A triangle whose doubled signed area has magnitude at
//! most 2 — area at most one pixel — is degenerate and fills nothing.
//! The fragment depth is the exact barycentric blend of the three vertex
//! depths. With a depth buffer, a fragment is written only when its
//! depth is strictly greater than the stored one ("greater = nearer");
//! without one, every covered pixel is written. Pixels outside the
//! buffer are skipped, so marginal off-canvas geometry never aborts a
//! draw.

use vstd::prelude::*;

verus! {

use crate::rat::{Rat, RatV, rat_wf, rat_eq, rat_lt, rat_frac, lemma_rat_lt_cong};
use crate::image::{Image, DepthBuffer, DrawError, pix_index, lemma_pix_index_bounds,
    lemma_pix_index_injective, zb_wf};
use crate::line::{iabs, imin, imax};
use crate::types::Vector3;

/// Twice the signed area of the triangle `(a, b, c)` by the shoelace
/// formula; positive for one winding, negative for the other.
pub open spec fn area2(ax: int, ay: int, bx: int, by: int, cx: int, cy: int) -> int {
    (by - ay) * (bx + ax) + (cy - by) * (cx + bx) + (ay - cy) * (ax + cx)
}

/// A triangle in screen space: three vertices with integer coordinates,
/// the third component carrying a depth value.
#[derive(Debug, Clone)]
pub struct Triangle {
    pub vector_a: Vector3<i64>,
    pub vector_b: Vector3<i64>,
    pub vector_c: Vector3<i64>,
}

/// Twice the signed area of the triangle's screen projection.
pub open spec fn tri_area2(t: Triangle) -> int {
    area2(
        t.vector_a.x as int,
        t.vector_a.y as int,
        t.vector_b.x as int,
        t.vector_b.y as int,
        t.vector_c.x as int,
        t.vector_c.y as int,
    )
}

/// Twice the signed area with the pixel in place of vertex `a`.
pub open spec fn tri_sub_a(t: Triangle, x: int, y: int) -> int {
    area2(
        x,
        y,
        t.vector_b.x as int,
        t.vector_b.y as int,
        t.vector_c.x as int,
        t.vector_c.y as int,
    )
}

/// Twice the signed area with the pixel in place of vertex `b`.
pub open spec fn tri_sub_b(t: Triangle, x: int, y: int) -> int {
    area2(
        x,
        y,
        t.vector_c.x as int,
        t.vector_c.y as int,
        t.vector_a.x as int,
        t.vector_a.y as int,
    )
}

/// Twice the signed area with the pixel in place of vertex `c`.
pub open spec fn tri_sub_c(t: Triangle, x: int, y: int) -> int {
    area2(
        x,
        y,
        t.vector_a.x as int,
        t.vector_a.y as int,
        t.vector_b.x as int,
        t.vector_b.y as int,
    )
}

/// The sub-area does not contradict the whole area's sign, so the
/// barycentric weight it stands for is non-negative.
pub open spec fn same_side(s: int, tot: int) -> bool {
    s == 0 || ((s > 0) == (tot > 0))
}

/// Every coordinate of the triangle is small enough for exact `i64`
/// area and depth arithmetic.
pub open spec fn tri_bounded(t: Triangle) -> bool {
    -100_000 <= t.vector_a.x as int <= 100_000 && -100_000 <= t.vector_a.y as int <= 100_000
        && -100_000 <= t.vector_a.z as int <= 100_000 && -100_000 <= t.vector_b.x as int
        <= 100_000 && -100_000 <= t.vector_b.y as int <= 100_000 && -100_000
        <= t.vector_b.z as int <= 100_000 && -100_000 <= t.vector_c.x as int <= 100_000
        && -100_000 <= t.vector_c.y as int <= 100_000 && -100_000 <= t.vector_c.z as int
        <= 100_000
}

/// The rasterizer covers pixel `(x, y)`: the triangle is not
/// degenerate, the pixel lies in the bounding box, and all three
/// barycentric weights are non-negative (boundary pixels included).
pub open spec fn tri_covered(t: Triangle, x: int, y: int) -> bool {
    let tot = tri_area2(t);
    iabs(tot) > 2 && imin(imin(t.vector_a.x as int, t.vector_b.x as int), t.vector_c.x as int) <= x
        <= imax(imax(t.vector_a.x as int, t.vector_b.x as int), t.vector_c.x as int) && imin(
        imin(t.vector_a.y as int, t.vector_b.y as int),
        t.vector_c.y as int,
    ) <= y <= imax(imax(t.vector_a.y as int, t.vector_b.y as int), t.vector_c.y as int)
        && same_side(tri_sub_a(t, x, y), tot) && same_side(tri_sub_b(t, x, y), tot) && same_side(
        tri_sub_c(t, x, y),
        tot,
    )
}

/// The fragment depth at a covered pixel: the barycentric blend of the
/// three vertex depths, as an exact rational.
pub open spec fn tri_depth(t: Triangle, x: int, y: int) -> RatV {
    rat_frac(
        tri_sub_a(t, x, y) * t.vector_a.z as int + tri_sub_b(t, x, y) * t.vector_b.z as int
            + tri_sub_c(t, x, y) * t.vector_c.z as int,
        tri_area2(t),
    )
}

/// The candidate depth wins against the stored cell: an empty cell
/// always loses, a stored depth loses when strictly smaller.
pub open spec fn depth_pass(cell: Option<RatV>, d: RatV) -> bool {
    match cell {
        Option::None => true,
        Option::Some(o) => rat_lt(o, d),
    }
}

/// The rasterizer writes pixel `(x, y)`, judged against the depth
/// buffer as it stood before the draw (`None`: no depth testing).
pub open spec fn tri_writes(
    zorig: Option<Seq<Option<RatV>>>,
    w: int,
    t: Triangle,
    x: int,
    y: int,
) -> bool {
    tri_covered(t, x, y) && (match zorig {
        Option::None => true,
        Option::Some(s) => depth_pass(s[pix_index(w, x, y)], tri_depth(t, x, y)),
    })
}

/// The pixel has already been visited by the bounding-box scan, which
/// walks rows upward and each row rightward.
pub open spec fn tri_done(x: int, y: int, ycur: int, xcur: int) -> bool {
    y < ycur || (y == ycur && x < xcur)
}

/// Pixel `(x, y)` is in the state the scan leaves it in once every
/// pixel before `(xcur, ycur)` has been visited: if it was visited and
/// written it holds the color, and its depth cell a well-formed
/// representative of the fragment depth; otherwise it is as it was.
pub open spec fn tri_pix_ok<T>(
    cur: Seq<T>,
    orig: Seq<T>,
    zcur: Option<Seq<Option<RatV>>>,
    zorig: Option<Seq<Option<RatV>>>,
    w: int,
    t: Triangle,
    color: T,
    ycur: int,
    xcur: int,
    x: int,
    y: int,
) -> bool {
    let wr = tri_writes(zorig, w, t, x, y) && tri_done(x, y, ycur, xcur);
    (cur[pix_index(w, x, y)] == (if wr {
        color
    } else {
        orig[pix_index(w, x, y)]
    })) && (match (zcur, zorig) {
        (Option::Some(zc), Option::Some(zo)) => if wr {
            zc[pix_index(w, x, y)] matches Some(d) && rat_eq(d, tri_depth(t, x, y)) && rat_wf(d)
        } else {
            zc[pix_index(w, x, y)] == zo[pix_index(w, x, y)]
        },
        _ => true,
    })
}

/// The state of the pixel and depth buffers after the scan has visited
/// all pixels before `(xcur, ycur)`.
pub open spec fn tri_prog<T>(
    cur: Seq<T>,
    orig: Seq<T>,
    zcur: Option<Seq<Option<RatV>>>,
    zorig: Option<Seq<Option<RatV>>>,
    w: int,
    h: int,
    t: Triangle,
    color: T,
    ycur: int,
    xcur: int,
) -> bool {
    forall|x: int, y: int|
        0 <= x < w && 0 <= y < h ==> #[trigger] tri_pix_ok(
            cur,
            orig,
            zcur,
            zorig,
            w,
            t,
            color,
            ycur,
            xcur,
            x,
            y,
        )
}

/// The three points are collinear: the cross product of the two edge
/// vectors vanishes.
pub open spec fn collinear(ax: int, ay: int, bx: int, by: int, cx: int, cy: int) -> bool {
    (bx - ax) * (cy - ay) == (by - ay) * (cx - ax)
}

/// The shoelace area of a triangle equals the cross product of its edge
/// vectors, so collinear vertices give area zero.
pub proof fn lemma_collinear_area_zero(ax: int, ay: int, bx: int, by: int, cx: int, cy: int)
    requires
        collinear(ax, ay, bx, by, cx, cy),
    ensures
        area2(ax, ay, bx, by, cx, cy) == 0,
{
    assert(area2(ax, ay, bx, by, cx, cy) == (bx - ax) * (cy - ay) - (by - ay) * (cx - ax))
        by (nonlinear_arith);
}

/// A degenerate triangle — all three vertices collinear — covers no
/// pixel at all, so drawing it changes nothing.
pub proof fn lemma_degenerate_triangle_covers_nothing(t: Triangle)
    requires
        collinear(
            t.vector_a.x as int,
            t.vector_a.y as int,
            t.vector_b.x as int,
            t.vector_b.y as int,
            t.vector_c.x as int,
            t.vector_c.y as int,
        ),
    ensures
        forall|x: int, y: int| !tri_covered(t, x, y),
{
    lemma_collinear_area_zero(
        t.vector_a.x as int,
        t.vector_a.y as int,
        t.vector_b.x as int,
        t.vector_b.y as int,
        t.vector_c.x as int,
        t.vector_c.y as int,
    );
}

/// Twice the signed shoelace area, computed exactly.
fn shoelace2(ax: i64, ay: i64, bx: i64, by: i64, cx: i64, cy: i64) -> (r: i64)
    requires
        -100_000 <= ax <= 100_000,
        -100_000 <= ay <= 100_000,
        -100_000 <= bx <= 100_000,
        -100_000 <= by <= 100_000,
        -100_000 <= cx <= 100_000,
        -100_000 <= cy <= 100_000,
    ensures
        r == area2(ax as int, ay as int, bx as int, by as int, cx as int, cy as int),
        -120_000_000_000 <= r <= 120_000_000_000,
{
    proof {
        assert((by - ay) as int * (bx + ax) as int <= 40_000_000_000 && (by - ay) as int * (bx
            + ax) as int >= -40_000_000_000 && (cy - by) as int * (cx + bx) as int
            <= 40_000_000_000 && (cy - by) as int * (cx + bx) as int >= -40_000_000_000 && (ay
            - cy) as int * (ax + cx) as int <= 40_000_000_000 && (ay - cy) as int * (ax
            + cx) as int >= -40_000_000_000) by (nonlinear_arith)
            requires
                -100_000 <= ax <= 100_000,
                -100_000 <= ay <= 100_000,
                -100_000 <= bx <= 100_000,
                -100_000 <= by <= 100_000,
                -100_000 <= cx <= 100_000,
                -100_000 <= cy <= 100_000,
        ;
    }
    (by - ay) * (bx + ax) + (cy - by) * (cx + bx) + (ay - cy) * (ax + cx)
}

impl Triangle {
    /// A triangle from references to its three vertices.
    pub fn create_from_refs(
        vector_a: &Vector3<i64>,
        vector_b: &Vector3<i64>,
        vector_c: &Vector3<i64>,
    ) -> (t: Triangle)
        ensures
            t.vector_a == *vector_a,
            t.vector_b == *vector_b,
            t.vector_c == *vector_c,
    {
        Triangle {
            vector_a: Vector3 { x: vector_a.x, y: vector_a.y, z: vector_a.z },
            vector_b: Vector3 { x: vector_b.x, y: vector_b.y, z: vector_b.z },
            vector_c: Vector3 { x: vector_c.x, y: vector_c.y, z: vector_c.z },
        }
    }

    /// The signed area: half the shoelace sum, as an exact rational.
    pub fn area(&self) -> (a: Rat)
        requires
            tri_bounded(*self),
        ensures
            rat_eq(a@, rat_frac(tri_area2(*self), 2)),
    {
        let tot: i64 = shoelace2(
            self.vector_a.x,
            self.vector_a.y,
            self.vector_b.x,
            self.vector_b.y,
            self.vector_c.x,
            self.vector_c.y,
        );
        match Rat::new(tot, 2) {
            Some(a) => a,
            None => {
                proof {
                    assert(false);
                }
                Rat::from_int(0)
            },
        }
    }

    /// Fills the triangle into the buffer, resolving visibility against
    /// the depth buffer if one is supplied. Covered pixels outside the
    /// buffer are skipped, and the call always succeeds.
    pub fn draw<T: Copy>(
        &self,
        color: T,
        img: &mut Image<T>,
        z_buff_opt: &mut Option<DepthBuffer>,
    ) -> (r: Result<(), DrawError>)
        requires
            old(img).wf(),
            tri_bounded(*self),
            *old(z_buff_opt) matches Some(zb) ==> zb.wf() && zb.spec_width() == old(
                img,
            ).spec_width() && zb.spec_height() == old(img).spec_height() && zb_wf(zb@),
        ensures
            r is Ok,
            final (img).wf(),
            final (img).spec_width() == old(img).spec_width(),
            final (img).spec_height() == old(img).spec_height(),
            *old(z_buff_opt) is None ==> *final (z_buff_opt) is None && tri_prog(
                final (img)@,
                old(img)@,
                Option::None,
                Option::None,
                old(img).spec_width(),
                old(img).spec_height(),
                *self,
                color,
                old(img).spec_height(),
                0,
            ),
            *old(z_buff_opt) matches Some(zb0) ==> *final (z_buff_opt) matches Some(zb1) && zb1.wf()
                && zb1.spec_width() == zb0.spec_width() && zb1.spec_height() == zb0.spec_height()
                && zb_wf(zb1@) && tri_prog(
                final (img)@,
                old(img)@,
                Option::Some(zb1@),
                Option::Some(zb0@),
                old(img).spec_width(),
                old(img).spec_height(),
                *self,
                color,
                old(img).spec_height(),
                0,
            ),
    {
        let taken = z_buff_opt.take();
        match taken {
            Some(mut zb) => {
                self.fill_depth(color, img, &mut zb);
                *z_buff_opt = Some(zb);
            },
            None => {
                self.fill_plain(color, img);
                *z_buff_opt = None;
            },
        }
        Ok(())
    }

    /// Fills every covered in-buffer pixel unconditionally.
    fn fill_plain<T: Copy>(&self, color: T, img: &mut Image<T>)
        requires
            old(img).wf(),
            tri_bounded(*self),
        ensures
            final (img).wf(),
            final (img).spec_width() == old(img).spec_width(),
            final (img).spec_height() == old(img).spec_height(),
            tri_prog(
                final (img)@,
                old(img)@,
                Option::None,
                Option::None,
                old(img).spec_width(),
                old(img).spec_height(),
                *self,
                color,
                old(img).spec_height(),
                0,
            ),
    {
        let w: usize = img.width();
        let h: usize = img.height();
        let ghost wim = img.spec_width();
        let ghost him = img.spec_height();
        let ghost img0 = img@;
        let tot: i64 = shoelace2(
            self.vector_a.x,
            self.vector_a.y,
            self.vector_b.x,
            self.vector_b.y,
            self.vector_c.x,
            self.vector_c.y,
        );
        if -2 <= tot && tot <= 2 {
            proof {
                assert forall|x: int, y: int| 0 <= x < wim && 0 <= y < him implies #[trigger] tri_pix_ok(
                    img@,
                    img0,
                    Option::<Seq<Option<RatV>>>::None,
                    Option::<Seq<Option<RatV>>>::None,
                    wim,
                    *self,
                    color,
                    him,
                    0,
                    x,
                    y,
                ) by {
                    assert(!tri_covered(*self, x, y));
                }
            }
            return ;
        }
        let bb_min_x: i64 = i64_min(i64_min(self.vector_a.x, self.vector_b.x), self.vector_c.x);
        let bb_max_x: i64 = i64_max(i64_max(self.vector_a.x, self.vector_b.x), self.vector_c.x);
        let bb_min_y: i64 = i64_min(i64_min(self.vector_a.y, self.vector_b.y), self.vector_c.y);
        let bb_max_y: i64 = i64_max(i64_max(self.vector_a.y, self.vector_b.y), self.vector_c.y);
        let mut y: i64 = bb_min_y;
        while y <= bb_max_y
            invariant
                img.wf(),
                img.spec_width() == wim,
                img.spec_height() == him,
                w as int == wim,
                h as int == him,
                tri_bounded(*self),
                tot == tri_area2(*self),
                iabs(tot as int) > 2,
                -120_000_000_000 <= tot <= 120_000_000_000,
                bb_min_x as int == imin(
                    imin(self.vector_a.x as int, self.vector_b.x as int),
                    self.vector_c.x as int,
                ),
                bb_max_x as int == imax(
                    imax(self.vector_a.x as int, self.vector_b.x as int),
                    self.vector_c.x as int,
                ),
                bb_min_y as int == imin(
                    imin(self.vector_a.y as int, self.vector_b.y as int),
                    self.vector_c.y as int,
                ),
                bb_max_y as int == imax(
                    imax(self.vector_a.y as int, self.vector_b.y as int),
                    self.vector_c.y as int,
                ),
                bb_min_y <= y,
                y as int <= bb_max_y as int + 1,
                tri_prog(img@, img0, Option::None, Option::None, wim, him, *self, color, y as int, bb_min_x as int),
            decreases bb_max_y as int + 1 - y,
        {
            let mut x: i64 = bb_min_x;
            while x <= bb_max_x
                invariant
                    img.wf(),
                    img.spec_width() == wim,
                    img.spec_height() == him,
                    w as int == wim,
                    h as int == him,
                    tri_bounded(*self),
                    tot == tri_area2(*self),
                    iabs(tot as int) > 2,
                    -120_000_000_000 <= tot <= 120_000_000_000,
                    bb_min_x as int == imin(
                        imin(self.vector_a.x as int, self.vector_b.x as int),
                        self.vector_c.x as int,
                    ),
                    bb_max_x as int == imax(
                        imax(self.vector_a.x as int, self.vector_b.x as int),
                        self.vector_c.x as int,
                    ),
                    bb_min_y as int == imin(
                        imin(self.vector_a.y as int, self.vector_b.y as int),
                        self.vector_c.y as int,
                    ),
                    bb_max_y as int == imax(
                        imax(self.vector_a.y as int, self.vector_b.y as int),
                        self.vector_c.y as int,
                    ),
                    bb_min_y <= y <= bb_max_y,
                    bb_min_x <= x,
                    x as int <= bb_max_x as int + 1,
                    tri_prog(img@, img0, Option::None, Option::None, wim, him, *self, color, y as int, x as int),
                decreases bb_max_x as int + 1 - x,
            {
                let cov = self.pixel_covered(tot, x, y);
                let ghost pre = img@;
                if cov && x >= 0 && y >= 0 && (x as usize) < w && (y as usize) < h {
                    let res = img.set(x as usize, y as usize, color);
                    proof {
                        assert(res is Ok);
                        lemma_pix_index_bounds(wim, him, x as int, y as int);
                    }
                }
                x = x + 1;
                proof {
                    assert forall|px: int, py: int|
                        0 <= px < wim && 0 <= py < him implies #[trigger] tri_pix_ok(
                        img@,
                        img0,
                        Option::<Seq<Option<RatV>>>::None,
                        Option::<Seq<Option<RatV>>>::None,
                        wim,
                        *self,
                        color,
                        y as int,
                        x as int,
                        px,
                        py,
                    ) by {
                        lemma_pix_index_bounds(wim, him, px, py);
                        assert(tri_pix_ok(
                            pre,
                            img0,
                            Option::<Seq<Option<RatV>>>::None,
                            Option::<Seq<Option<RatV>>>::None,
                            wim,
                            *self,
                            color,
                            y as int,
                            x as int - 1,
                            px,
                            py,
                        ));
                        if px == x as int - 1 && py == y as int {
                        } else {
                            if 0 <= (x as int) - 1 && (x as int) - 1 < wim && 0 <= (y as int) && (y as int) < him {
                                lemma_pix_index_bounds(wim, him, x as int - 1, y as int);
                                if pix_index(wim, px, py) == pix_index(
                                    wim,
                                    x as int - 1,
                                    y as int,
                                ) {
                                    lemma_pix_index_injective(wim, px, py, x as int - 1, y as int);
                                }
                            }
                            assert(img@[pix_index(wim, px, py)] == pre[pix_index(wim, px, py)]);
                            assert(tri_done(px, py, y as int, x as int) == tri_done(
                                px,
                                py,
                                y as int,
                                x as int - 1,
                            ));
                        }
                    }
                }
            }
            proof {
                assert forall|px: int, py: int|
                    0 <= px < wim && 0 <= py < him implies #[trigger] tri_pix_ok(
                    img@,
                    img0,
                    Option::<Seq<Option<RatV>>>::None,
                    Option::<Seq<Option<RatV>>>::None,
                    wim,
                    *self,
                    color,
                    y as int + 1,
                    bb_min_x as int,
                    px,
                    py,
                ) by {
                    assert(tri_pix_ok(
                        img@,
                        img0,
                        Option::<Seq<Option<RatV>>>::None,
                        Option::<Seq<Option<RatV>>>::None,
                        wim,
                        *self,
                        color,
                        y as int,
                        x as int,
                        px,
                        py,
                    ));
                    if tri_done(px, py, y as int + 1, bb_min_x as int) != tri_done(
                        px,
                        py,
                        y as int,
                        x as int,
                    ) {
                        assert(!tri_covered(*self, px, py));
                    }
                }
            }
            y = y + 1;
        }
        proof {
            assert forall|px: int, py: int|
                0 <= px < wim && 0 <= py < him implies #[trigger] tri_pix_ok(
                img@,
                img0,
                Option::<Seq<Option<RatV>>>::None,
                Option::<Seq<Option<RatV>>>::None,
                wim,
                *self,
                color,
                him,
                0,
                px,
                py,
            ) by {
                assert(tri_pix_ok(
                    img@,
                    img0,
                    Option::<Seq<Option<RatV>>>::None,
                    Option::<Seq<Option<RatV>>>::None,
                    wim,
                    *self,
                    color,
                    y as int,
                    bb_min_x as int,
                    px,
                    py,
                ));
                if tri_done(px, py, him, 0) != tri_done(px, py, y as int, bb_min_x as int) {
                    assert(!tri_covered(*self, px, py));
                }
            }
        }
    }

    /// Fills every covered in-buffer pixel whose fragment depth beats
    /// the stored one, updating the depth buffer as it goes.
    fn fill_depth<T: Copy>(&self, color: T, img: &mut Image<T>, zb: &mut DepthBuffer)
        requires
            old(img).wf(),
            tri_bounded(*self),
            old(zb).wf(),
            old(zb).spec_width() == old(img).spec_width(),
            old(zb).spec_height() == old(img).spec_height(),
            zb_wf(old(zb)@),
        ensures
            final (img).wf(),
            final (img).spec_width() == old(img).spec_width(),
            final (img).spec_height() == old(img).spec_height(),
            final (zb).wf(),
            final (zb).spec_width() == old(zb).spec_width(),
            final (zb).spec_height() == old(zb).spec_height(),
            zb_wf(final (zb)@),
            tri_prog(
                final (img)@,
                old(img)@,
                Option::Some(final (zb)@),
                Option::Some(old(zb)@),
                old(img).spec_width(),
                old(img).spec_height(),
                *self,
                color,
                old(img).spec_height(),
                0,
            ),
    {
        let w: usize = img.width();
        let h: usize = img.height();
        let ghost wim = img.spec_width();
        let ghost him = img.spec_height();
        let ghost img0 = img@;
        let ghost zb0 = zb@;
        let tot: i64 = shoelace2(
            self.vector_a.x,
            self.vector_a.y,
            self.vector_b.x,
            self.vector_b.y,
            self.vector_c.x,
            self.vector_c.y,
        );
        if -2 <= tot && tot <= 2 {
            proof {
                assert forall|x: int, y: int| 0 <= x < wim && 0 <= y < him implies #[trigger] tri_pix_ok(
                    img@,
                    img0,
                    Option::Some(zb@),
                    Option::Some(zb0),
                    wim,
                    *self,
                    color,
                    him,
                    0,
                    x,
                    y,
                ) by {
                    assert(!tri_covered(*self, x, y));
                }
            }
            return ;
        }
        let bb_min_x: i64 = i64_min(i64_min(self.vector_a.x, self.vector_b.x), self.vector_c.x);
        let bb_max_x: i64 = i64_max(i64_max(self.vector_a.x, self.vector_b.x), self.vector_c.x);
        let bb_min_y: i64 = i64_min(i64_min(self.vector_a.y, self.vector_b.y), self.vector_c.y);
        let bb_max_y: i64 = i64_max(i64_max(self.vector_a.y, self.vector_b.y), self.vector_c.y);
        let mut y: i64 = bb_min_y;
        while y <= bb_max_y
            invariant
                img.wf(),
                img.spec_width() == wim,
                img.spec_height() == him,
                w as int == wim,
                h as int == him,
                zb.wf(),
                zb.spec_width() == wim,
                zb.spec_height() == him,
                zb_wf(zb@),
                zb_wf(zb0),
                tri_bounded(*self),
                tot == tri_area2(*self),
                iabs(tot as int) > 2,
                -120_000_000_000 <= tot <= 120_000_000_000,
                bb_min_x as int == imin(
                    imin(self.vector_a.x as int, self.vector_b.x as int),
                    self.vector_c.x as int,
                ),
                bb_max_x as int == imax(
                    imax(self.vector_a.x as int, self.vector_b.x as int),
                    self.vector_c.x as int,
                ),
                bb_min_y as int == imin(
                    imin(self.vector_a.y as int, self.vector_b.y as int),
                    self.vector_c.y as int,
                ),
                bb_max_y as int == imax(
                    imax(self.vector_a.y as int, self.vector_b.y as int),
                    self.vector_c.y as int,
                ),
                bb_min_y <= y,
                y as int <= bb_max_y as int + 1,
                tri_prog(
                    img@,
                    img0,
                    Option::Some(zb@),
                    Option::Some(zb0),
                    wim,
                    him,
                    *self,
                    color,
                    y as int,
                    bb_min_x as int,
                ),
            decreases bb_max_y as int + 1 - y,
        {
            let mut x: i64 = bb_min_x;
            while x <= bb_max_x
                invariant
                    img.wf(),
                    img.spec_width() == wim,
                    img.spec_height() == him,
                    w as int == wim,
                    h as int == him,
                    zb.wf(),
                    zb.spec_width() == wim,
                    zb.spec_height() == him,
                    zb_wf(zb@),
                    zb_wf(zb0),
                    tri_bounded(*self),
                    tot == tri_area2(*self),
                    iabs(tot as int) > 2,
                    -120_000_000_000 <= tot <= 120_000_000_000,
                    bb_min_x as int == imin(
                        imin(self.vector_a.x as int, self.vector_b.x as int),
                        self.vector_c.x as int,
                    ),
                    bb_max_x as int == imax(
                        imax(self.vector_a.x as int, self.vector_b.x as int),
                        self.vector_c.x as int,
                    ),
                    bb_min_y as int == imin(
                        imin(self.vector_a.y as int, self.vector_b.y as int),
                        self.vector_c.y as int,
                    ),
                    bb_max_y as int == imax(
                        imax(self.vector_a.y as int, self.vector_b.y as int),
                        self.vector_c.y as int,
                    ),
                    bb_min_y <= y <= bb_max_y,
                    bb_min_x <= x,
                    x as int <= bb_max_x as int + 1,
                    tri_prog(
                        img@,
                        img0,
                        Option::Some(zb@),
                        Option::Some(zb0),
                        wim,
                        him,
                        *self,
                        color,
                        y as int,
                        x as int,
                    ),
                decreases bb_max_x as int + 1 - x,
            {
                let cov = self.pixel_covered(tot, x, y);
                let ghost pre = img@;
                let ghost zpre = zb@;
                if cov && x >= 0 && y >= 0 && (x as usize) < w && (y as usize) < h {
                    proof {
                        lemma_pix_index_bounds(wim, him, x as int, y as int);
                        assert(tri_pix_ok(
                            pre,
                            img0,
                            Option::Some(zpre),
                            Option::Some(zb0),
                            wim,
                            *self,
                            color,
                            y as int,
                            x as int,
                            x as int,
                            y as int,
                        ));
                        assert(zpre[pix_index(wim, x as int, y as int)] == zb0[pix_index(
                            wim,
                            x as int,
                            y as int,
                        )]);
                    }
                    let sa: i64 = shoelace2(
                        x,
                        y,
                        self.vector_b.x,
                        self.vector_b.y,
                        self.vector_c.x,
                        self.vector_c.y,
                    );
                    let sb: i64 = shoelace2(
                        x,
                        y,
                        self.vector_c.x,
                        self.vector_c.y,
                        self.vector_a.x,
                        self.vector_a.y,
                    );
                    let sc: i64 = shoelace2(
                        x,
                        y,
                        self.vector_a.x,
                        self.vector_a.y,
                        self.vector_b.x,
                        self.vector_b.y,
                    );
                    proof {
                        assert(sa as int * self.vector_a.z as int <= 12_000_000_000_000_000 && sa
                            as int * self.vector_a.z as int >= -12_000_000_000_000_000 && sb
                            as int * self.vector_b.z as int <= 12_000_000_000_000_000 && sb
                            as int * self.vector_b.z as int >= -12_000_000_000_000_000 && sc
                            as int * self.vector_c.z as int <= 12_000_000_000_000_000 && sc
                            as int * self.vector_c.z as int >= -12_000_000_000_000_000)
                            by (nonlinear_arith)
                            requires
                                -120_000_000_000 <= sa as int <= 120_000_000_000,
                                -120_000_000_000 <= sb as int <= 120_000_000_000,
                                -120_000_000_000 <= sc as int <= 120_000_000_000,
                                -100_000 <= self.vector_a.z as int <= 100_000,
                                -100_000 <= self.vector_b.z as int <= 100_000,
                                -100_000 <= self.vector_c.z as int <= 100_000,
                        ;
                    }
                    let num: i64 = sa * self.vector_a.z + sb * self.vector_b.z + sc * self.vector_c.z;
                    let cand = match Rat::new(num, tot) {
                        Some(c) => c,
                        None => {
                            proof {
                                assert(false);
                            }
                            Rat::from_int(0)
                        },
                    };
                    proof {
                        use_type_invariant(cand);
                        assert(rat_eq(cand@, tri_depth(*self, x as int, y as int)));
                        assert(rat_wf(tri_depth(*self, x as int, y as int)));
                    }
                    let cell = zb.get(x as usize, y as usize);
                    let pass = match cell {
                        None => true,
                        Some(o) => {
                            proof {
                                use_type_invariant(o);
                                assert(zpre[pix_index(wim, x as int, y as int)] == Some(o@));
                                lemma_rat_lt_cong(o@, cand@, tri_depth(*self, x as int, y as int));
                            }
                            o.lt(&cand)
                        },
                    };
                    proof {
                        assert(pass == depth_pass(
                            zb0[pix_index(wim, x as int, y as int)],
                            tri_depth(*self, x as int, y as int),
                        ));
                    }
                    if pass {
                        zb.set(x as usize, y as usize, cand);
                        let res = img.set(x as usize, y as usize, color);
                        proof {
                            assert(res is Ok);
                        }
                    }
                }
                x = x + 1;
                proof {
                    assert forall|px: int, py: int|
                        0 <= px < wim && 0 <= py < him implies #[trigger] tri_pix_ok(
                        img@,
                        img0,
                        Option::Some(zb@),
                        Option::Some(zb0),
                        wim,
                        *self,
                        color,
                        y as int,
                        x as int,
                        px,
                        py,
                    ) by {
                        lemma_pix_index_bounds(wim, him, px, py);
                        assert(tri_pix_ok(
                            pre,
                            img0,
                            Option::Some(zpre),
                            Option::Some(zb0),
                            wim,
                            *self,
                            color,
                            y as int,
                            x as int - 1,
                            px,
                            py,
                        ));
                        if px == x as int - 1 && py == y as int {
                        } else {
                            if 0 <= (x as int) - 1 && (x as int) - 1 < wim && 0 <= (y as int) && (y as int) < him {
                                lemma_pix_index_bounds(wim, him, x as int - 1, y as int);
                                if pix_index(wim, px, py) == pix_index(
                                    wim,
                                    x as int - 1,
                                    y as int,
                                ) {
                                    lemma_pix_index_injective(wim, px, py, x as int - 1, y as int);
                                }
                            }
                            assert(img@[pix_index(wim, px, py)] == pre[pix_index(wim, px, py)]);
                            assert(zb@[pix_index(wim, px, py)] == zpre[pix_index(wim, px, py)]);
                            assert(tri_done(px, py, y as int, x as int) == tri_done(
                                px,
                                py,
                                y as int,
                                x as int - 1,
                            ));
                        }
                    }
                }
            }
            proof {
                assert forall|px: int, py: int|
                    0 <= px < wim && 0 <= py < him implies #[trigger] tri_pix_ok(
                    img@,
                    img0,
                    Option::Some(zb@),
                    Option::Some(zb0),
                    wim,
                    *self,
                    color,
                    y as int + 1,
                    bb_min_x as int,
                    px,
                    py,
                ) by {
                    assert(tri_pix_ok(
                        img@,
                        img0,
                        Option::Some(zb@),
                        Option::Some(zb0),
                        wim,
                        *self,
                        color,
                        y as int,
                        x as int,
                        px,
                        py,
                    ));
                    if tri_done(px, py, y as int + 1, bb_min_x as int) != tri_done(
                        px,
                        py,
                        y as int,
                        x as int,
                    ) {
                        assert(!tri_covered(*self, px, py));
                    }
                }
            }
            y = y + 1;
        }
        proof {
            assert forall|px: int, py: int|
                0 <= px < wim && 0 <= py < him implies #[trigger] tri_pix_ok(
                img@,
                img0,
                Option::Some(zb@),
                Option::Some(zb0),
                wim,
                *self,
                color,
                him,
                0,
                px,
                py,
            ) by {
                assert(tri_pix_ok(
                    img@,
                    img0,
                    Option::Some(zb@),
                    Option::Some(zb0),
                    wim,
                    *self,
                    color,
                    y as int,
                    bb_min_x as int,
                    px,
                    py,
                ));
                if tri_done(px, py, him, 0) != tri_done(px, py, y as int, bb_min_x as int) {
                    assert(!tri_covered(*self, px, py));
                }
            }
        }
    }

    /// Whether the scan covers pixel `(x, y)`: the sign test on the
    /// three sub-triangle areas, inside the bounding box.
    fn pixel_covered(&self, tot: i64, x: i64, y: i64) -> (cov: bool)
        requires
            tri_bounded(*self),
            tot == tri_area2(*self),
            iabs(tot as int) > 2,
            -100_000 <= x <= 100_000,
            -100_000 <= y <= 100_000,
        ensures
            cov == tri_covered(*self, x as int, y as int),
    {
        let in_bb = i64_min(i64_min(self.vector_a.x, self.vector_b.x), self.vector_c.x) <= x && x
            <= i64_max(i64_max(self.vector_a.x, self.vector_b.x), self.vector_c.x) && i64_min(
            i64_min(self.vector_a.y, self.vector_b.y),
            self.vector_c.y,
        ) <= y && y <= i64_max(i64_max(self.vector_a.y, self.vector_b.y), self.vector_c.y);
        if !in_bb {
            return false;
        }
        let sa: i64 = shoelace2(x, y, self.vector_b.x, self.vector_b.y, self.vector_c.x, self.vector_c.y);
        let sb: i64 = shoelace2(x, y, self.vector_c.x, self.vector_c.y, self.vector_a.x, self.vector_a.y);
        let sc: i64 = shoelace2(x, y, self.vector_a.x, self.vector_a.y, self.vector_b.x, self.vector_b.y);
        let ok_a = sa == 0 || ((sa > 0) == (tot > 0));
        let ok_b = sb == 0 || ((sb > 0) == (tot > 0));
        let ok_c = sc == 0 || ((sc > 0) == (tot > 0));
        ok_a && ok_b && ok_c
    }
}

/// The smaller of two machine integers.
fn i64_min(a: i64, b: i64) -> (r: i64)
    ensures
        r as int == imin(a as int, b as int),
{
    if a <= b {
        a
    } else {
        b
    }
}

/// The larger of two machine integers.
fn i64_max(a: i64, b: i64) -> (r: i64)
    ensures
        r as int == imax(a as int, b as int),
{
    if a <= b {
        b
    } else {
        a
    }
}

} // verus!
