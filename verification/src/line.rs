//! Line rasterization.
//!
//! A 1-pixel-wide connected line is drawn by stepping along the axis of
//! greater extent ("steep" lines step along y) and linearly
//! interpolating the other coordinate, truncating toward zero, exactly
//! one pixel per step. A single-point segment writes one pixel. The
//! inclusive step range guarantees a gap-free line. Out-of-bounds
//! endpoints fail with `CoordinateOutOfBounds` before anything is
//! written; they are never clamped.

use vstd::prelude::*;

verus! {

use vstd::arithmetic::div_mod::{
    lemma_div_is_ordered,
    lemma_div_multiples_vanish,
    lemma_div_pos_is_pos,
    lemma_div_nonincreasing,
};
use crate::colors::{Color, RGBA, rgba_of};
use crate::image::{Image, DrawError, pix_index, lemma_pix_index_injective, lemma_pix_index_bounds};
use crate::types::Point;

/// Absolute value.
pub open spec fn iabs(a: int) -> int {
    if a < 0 {
        -a
    } else {
        a
    }
}

/// The smaller of two integers.
pub open spec fn imin(a: int, b: int) -> int {
    if a <= b {
        a
    } else {
        b
    }
}

/// The larger of two integers.
pub open spec fn imax(a: int, b: int) -> int {
    if a <= b {
        b
    } else {
        a
    }
}

/// Division truncated toward zero, as a float-to-integer cast would
/// round the exact quotient.
pub open spec fn tdiv(a: int, b: int) -> int {
    if (a < 0) != (b < 0) {
        -(iabs(a) / iabs(b))
    } else {
        iabs(a) / iabs(b)
    }
}

/// A line is steep when it covers more ground in y than in x; it is
/// then stepped along y.
pub open spec fn line_steep(x0: int, y0: int, x1: int, y1: int) -> bool {
    iabs(y1 - y0) > iabs(x1 - x0)
}

/// The interpolated secondary coordinate at primary coordinate `u` of
/// the segment from `(u0, v0)` to `(u1, v1)`: `v0 + t * (v1 - v0)` with
/// `t = (u - u0) / (u1 - u0)`, truncated toward zero. A single-point
/// segment keeps `v0`.
pub open spec fn line_interp(u0: int, v0: int, u1: int, v1: int, u: int) -> int {
    if u1 == u0 {
        v0
    } else {
        tdiv(v0 * (u1 - u0) + (u - u0) * (v1 - v0), u1 - u0)
    }
}

/// Pixel `(x, y)` belongs to the rasterized line from `(x0, y0)` to
/// `(x1, y1)`.
pub open spec fn on_line(x0: int, y0: int, x1: int, y1: int, x: int, y: int) -> bool {
    if line_steep(x0, y0, x1, y1) {
        imin(y0, y1) <= y <= imax(y0, y1) && x == line_interp(y0, x0, y1, x1, y)
    } else {
        imin(x0, x1) <= x <= imax(x0, x1) && y == line_interp(x0, y0, x1, y1, x)
    }
}

/// The point lies inside a `w` by `h` pixel grid.
pub open spec fn point_in(px: int, py: int, w: int, h: int) -> bool {
    0 <= px < w && 0 <= py < h
}

/// Truncated division of a quotient known to sit between two integers
/// stays between them.
proof fn lemma_tdiv_in_range(np: int, dp: int, m: int, mm: int)
    requires
        dp >= 1,
        m * dp <= np <= mm * dp,
    ensures
        m <= tdiv(np, dp) <= mm,
{
    broadcast use vstd::arithmetic::mul::lemma_mul_is_commutative;

    if np >= 0 {
        assert(tdiv(np, dp) == np / dp);
        lemma_div_is_ordered(m * dp, np, dp);
        lemma_div_is_ordered(np, mm * dp, dp);
        lemma_div_multiples_vanish(m, dp);
        lemma_div_multiples_vanish(mm, dp);
    } else {
        assert(tdiv(np, dp) == -((-np) / dp));
        assert((-mm) * dp <= -np <= (-m) * dp) by (nonlinear_arith)
            requires
                m * dp <= np <= mm * dp,
        ;
        lemma_div_is_ordered(-np, (-m) * dp, dp);
        lemma_div_multiples_vanish(-m, dp);
        if mm >= 0 {
            lemma_div_pos_is_pos(-np, dp);
        } else {
            lemma_div_is_ordered((-mm) * dp, -np, dp);
            lemma_div_multiples_vanish(-mm, dp);
        }
    }
}

/// The interpolated coordinate never leaves the band between the two
/// endpoint coordinates.
proof fn lemma_interp_in_range(u0: int, v0: int, u1: int, v1: int, u: int)
    requires
        imin(u0, u1) <= u <= imax(u0, u1),
    ensures
        imin(v0, v1) <= line_interp(u0, v0, u1, v1, u) <= imax(v0, v1),
{
    if u1 == u0 {
    } else {
        let d = u1 - u0;
        let nn = v0 * d + (u - u0) * (v1 - v0);
        let m = imin(v0, v1);
        let mm = imax(v0, v1);
        let np = if d < 0 {
            -nn
        } else {
            nn
        };
        let dp = if d < 0 {
            -d
        } else {
            d
        };
        assert(m * dp <= np <= mm * dp) by (nonlinear_arith)
            requires
                d != 0,
                np == if d < 0 {
                    -(v0 * d + (u - u0) * (v1 - v0))
                } else {
                    v0 * d + (u - u0) * (v1 - v0)
                },
                dp == if d < 0 {
                    -d
                } else {
                    d
                },
                d == u1 - u0,
                m == imin(v0, v1),
                mm == imax(v0, v1),
                imin(u0, u1) <= u <= imax(u0, u1),
        ;
        assert(tdiv(nn, d) == tdiv(np, dp));
        lemma_tdiv_in_range(np, dp, m, mm);
    }
}

/// Division truncated toward zero, computed on magnitudes.
fn trunc_div_i64(a: i64, b: i64) -> (q: i64)
    requires
        b != 0,
        -0x4000_0000_0000_0000 <= a <= 0x4000_0000_0000_0000,
        -0x4000_0000_0000_0000 <= b <= 0x4000_0000_0000_0000,
    ensures
        q == tdiv(a as int, b as int),
{
    let ua: u64 = if a < 0 {
        (-a) as u64
    } else {
        a as u64
    };
    let ub: u64 = if b < 0 {
        (-b) as u64
    } else {
        b as u64
    };
    let uq: u64 = ua / ub;
    proof {
        lemma_div_nonincreasing(ua as int, ub as int);
    }
    if (a < 0) != (b < 0) {
        -(uq as i64)
    } else {
        uq as i64
    }
}

/// Draws the connected line between the two points into the buffer.
/// Both endpoints must lie inside the buffer, else the call fails with
/// `CoordinateOutOfBounds` and writes nothing; every pixel of the
/// rasterized line then lies inside the buffer too. On success the
/// buffer holds the line's pixels in the given color and every other
/// pixel unchanged.
pub fn draw_line(point_one: &Point, point_two: &Point, img: &mut Image<RGBA>, color: Color) -> (r:
    Result<(), DrawError>)
    requires
        old(img).wf(),
        -0x1000_0000 <= point_one.x as int <= 0x1000_0000,
        -0x1000_0000 <= point_one.y as int <= 0x1000_0000,
        -0x1000_0000 <= point_two.x as int <= 0x1000_0000,
        -0x1000_0000 <= point_two.y as int <= 0x1000_0000,
    ensures
        final (img).wf(),
        final (img).spec_width() == old(img).spec_width(),
        final (img).spec_height() == old(img).spec_height(),
        r is Ok <==> point_in(
            point_one.x as int,
            point_one.y as int,
            old(img).spec_width(),
            old(img).spec_height(),
        ) && point_in(
            point_two.x as int,
            point_two.y as int,
            old(img).spec_width(),
            old(img).spec_height(),
        ),
        r is Err ==> r == Result::<(), DrawError>::Err(DrawError::CoordinateOutOfBounds) && final (
        img)@ =~= old(img)@,
        r is Ok ==> forall|x: int, y: int|
            0 <= x < old(img).spec_width() && 0 <= y < old(img).spec_height()
                ==> final (img)@[pix_index(old(img).spec_width(), x, y)] == (if on_line(
                point_one.x as int,
                point_one.y as int,
                point_two.x as int,
                point_two.y as int,
                x,
                y,
            ) {
                rgba_of(color)
            } else {
                old(img)@[pix_index(old(img).spec_width(), x, y)]
            }),
{
    let w: usize = img.width();
    let h: usize = img.height();
    let ghost wim = img.spec_width();
    let ghost him = img.spec_height();
    let in_one = point_one.x >= 0 && point_one.y >= 0 && (point_one.x as usize) < w && (
    point_one.y as usize) < h;
    let in_two = point_two.x >= 0 && point_two.y >= 0 && (point_two.x as usize) < w && (
    point_two.y as usize) < h;
    if !(in_one && in_two) {
        return Err(DrawError::CoordinateOutOfBounds);
    }
    let x0: i64 = point_one.x as i64;
    let y0: i64 = point_one.y as i64;
    let x1: i64 = point_two.x as i64;
    let y1: i64 = point_two.y as i64;
    let adx: i64 = if x0 <= x1 {
        x1 - x0
    } else {
        x0 - x1
    };
    let ady: i64 = if y0 <= y1 {
        y1 - y0
    } else {
        y0 - y1
    };
    let steep = ady > adx;
    proof {
        assert(steep == line_steep(x0 as int, y0 as int, x1 as int, y1 as int));
    }
    let u0: i64 = if steep {
        y0
    } else {
        x0
    };
    let v0: i64 = if steep {
        x0
    } else {
        y0
    };
    let u1: i64 = if steep {
        y1
    } else {
        x1
    };
    let v1: i64 = if steep {
        x1
    } else {
        y1
    };
    let lo: i64 = if u0 <= u1 {
        u0
    } else {
        u1
    };
    let hi: i64 = if u0 <= u1 {
        u1
    } else {
        u0
    };
    let ghost img0 = img@;
    let ghost xs0 = x0 as int;
    let ghost ys0 = y0 as int;
    let ghost xs1 = x1 as int;
    let ghost ys1 = y1 as int;
    let mut u: i64 = lo;
    while u <= hi
        invariant
            img.wf(),
            img.spec_width() == wim,
            img.spec_height() == him,
            img@.len() == img0.len(),
            0 <= xs0 < wim,
            0 <= ys0 < him,
            0 <= xs1 < wim,
            0 <= ys1 < him,
            -0x1000_0000 <= xs0 <= 0x1000_0000,
            -0x1000_0000 <= ys0 <= 0x1000_0000,
            -0x1000_0000 <= xs1 <= 0x1000_0000,
            -0x1000_0000 <= ys1 <= 0x1000_0000,
            steep == line_steep(xs0, ys0, xs1, ys1),
            u0 as int == if steep {
                ys0
            } else {
                xs0
            },
            v0 as int == if steep {
                xs0
            } else {
                ys0
            },
            u1 as int == if steep {
                ys1
            } else {
                xs1
            },
            v1 as int == if steep {
                xs1
            } else {
                ys1
            },
            lo as int == imin(u0 as int, u1 as int),
            hi as int == imax(u0 as int, u1 as int),
            lo <= u,
            u as int <= hi as int + 1,
            forall|x: int, y: int|
                0 <= x < wim && 0 <= y < him ==> #[trigger] img@[pix_index(wim, x, y)] == (if on_line(
                    xs0,
                    ys0,
                    xs1,
                    ys1,
                    x,
                    y,
                ) && (if steep {
                    y
                } else {
                    x
                }) < u {
                    rgba_of(color)
                } else {
                    img0[pix_index(wim, x, y)]
                }),
        decreases hi as int + 1 - u,
    {
        let v: i64 = if u1 == u0 {
            v0
        } else {
            proof {
                assert(-0x2000_0000_0000_0000 <= v0 as int * (u1 - u0) as int
                    <= 0x2000_0000_0000_0000 && -0x2000_0000_0000_0000 <= (u - u0) as int * (v1
                    - v0) as int <= 0x2000_0000_0000_0000) by (nonlinear_arith)
                    requires
                        -0x1000_0000 <= v0 as int <= 0x1000_0000,
                        -0x1000_0000 <= v1 as int <= 0x1000_0000,
                        -0x2000_0001 <= (u1 - u0) as int <= 0x2000_0001,
                        -0x2000_0001 <= (u - u0) as int <= 0x2000_0001,
                ;
            }
            trunc_div_i64(v0 * (u1 - u0) + (u - u0) * (v1 - v0), u1 - u0)
        };
        proof {
            lemma_interp_in_range(u0 as int, v0 as int, u1 as int, v1 as int, u as int);
            assert(v as int == line_interp(u0 as int, v0 as int, u1 as int, v1 as int, u as int));
            assert(imin(v0 as int, v1 as int) <= v as int <= imax(v0 as int, v1 as int));
        }
        let px: i64 = if steep {
            v
        } else {
            u
        };
        let py: i64 = if steep {
            u
        } else {
            v
        };
        let ghost pre = img@;
        let ghost uprev = u as int;
        let res = img.set(px as usize, py as usize, color.rgba_value());
        u = u + 1;
        proof {
            assert(res is Ok);
            assert(img@ =~= pre.update(pix_index(wim, px as int, py as int), rgba_of(color)));
            lemma_pix_index_bounds(wim, him, px as int, py as int);
            assert(img@[pix_index(wim, px as int, py as int)] == rgba_of(color));
            assert(on_line(xs0, ys0, xs1, ys1, px as int, py as int));
            assert(forall|x: int, y: int|
                0 <= x < wim && 0 <= y < him && !(x == px as int && y == py as int) && on_line(
                    xs0,
                    ys0,
                    xs1,
                    ys1,
                    x,
                    y,
                ) ==> (if steep {
                    y
                } else {
                    x
                }) != uprev);
            assert forall|x: int, y: int| 0 <= x < wim && 0 <= y < him implies #[trigger] img@[pix_index(
                wim,
                x,
                y,
            )] == (if on_line(xs0, ys0, xs1, ys1, x, y) && (if steep {
                y
            } else {
                x
            }) < u {
                rgba_of(color)
            } else {
                img0[pix_index(wim, x, y)]
            }) by {
                lemma_pix_index_bounds(wim, him, x, y);
                lemma_pix_index_bounds(wim, him, px as int, py as int);
                if x == px as int && y == py as int {
                    assert(img@[pix_index(wim, x, y)] == rgba_of(color));
                    assert(on_line(xs0, ys0, xs1, ys1, x, y));
                    assert((if steep {
                        y
                    } else {
                        x
                    }) < u);
                } else {
                    if pix_index(wim, x, y) == pix_index(wim, px as int, py as int) {
                        lemma_pix_index_injective(wim, x, y, px as int, py as int);
                    }
                    assert(img@[pix_index(wim, x, y)] == pre[pix_index(wim, x, y)]);
                    assert(pre[pix_index(wim, x, y)] == (if on_line(xs0, ys0, xs1, ys1, x, y) && (
                    if steep {
                        y
                    } else {
                        x
                    }) < uprev {
                        rgba_of(color)
                    } else {
                        img0[pix_index(wim, x, y)]
                    }));
                    if on_line(xs0, ys0, xs1, ys1, x, y) {
                        assert((if steep {
                            y
                        } else {
                            x
                        }) != uprev);
                    }
                }
            }
        }
    }
    proof {
        assert(point_one.x as int == xs0 && point_one.y as int == ys0);
        assert(point_two.x as int == xs1 && point_two.y as int == ys1);
    }
    Ok(())
}

} // verus!
