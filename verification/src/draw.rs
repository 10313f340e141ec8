//! The pipeline driver: projection and per-face drawing.
//!
//! Each mesh vertex is mapped from normalized model space, nominally the
//! cube from -1 to 1 on each axis, into screen space:
//! `screen = (coordinate + 1) * dimension / 2`, truncated and clamped
//! into the pixel grid, and the depth quantized onto the 0 to 255 range
//! by the same rule with 255 in place of the dimension. An optional
//! rotation is a separate verified stage: multiplying every vertex, as a
//! column, by a 3 by 3 matrix. The driver resolves each face's 1-based
//! vertex indices, silently skipping a face with an index of zero or
//! beyond the vertex list, projects the three vertices, and submits the
//! triangle to depth-tested drawing.

use vstd::prelude::*;

verus! {

use crate::colors::{Color, RGBA, rgba_of};
use crate::image::{Image, DepthBuffer, DrawError, pix_index, zb_wf};
use crate::line::{draw_line, on_line, point_in, tdiv};
use crate::matrix::{Matrix, mul_entry, col_v};
use crate::obj::ObjFile;
use crate::rat::{Rat, RatV, rat_eq};
use crate::triangle::{Triangle, tri_prog, tri_bounded};
use crate::types::{Face, Point, Vector3};
use crate::vector::{Vector, dot_v, dot_partial};

/// The screen coordinate of a normalized model coordinate on an axis of
/// `dim` pixels: `(m + 1) * dim / 2` truncated, clamped onto the grid.
pub open spec fn project_coord(m: RatV, dim: int) -> int {
    let raw = tdiv((m.n + m.d) * dim, 2 * m.d);
    if raw < 0 {
        0
    } else if raw > dim - 1 {
        dim - 1
    } else {
        raw
    }
}

/// The quantized depth of a normalized model depth: `(m + 1) * 255 / 2`
/// truncated, clamped onto 0 to 255.
pub open spec fn project_depth(m: RatV) -> int {
    let raw = tdiv((m.n + m.d) * 255, 2 * m.d);
    if raw < 0 {
        0
    } else if raw > 255 {
        255
    } else {
        raw
    }
}

/// The projection of a whole vertex into a `w` by `h` grid.
pub open spec fn proj_vec(v: Vector3<Rat>, w: int, h: int) -> Vector3<i64> {
    Vector3 {
        x: project_coord(v.x@, w) as i64,
        y: project_coord(v.y@, h) as i64,
        z: project_depth(v.z@) as i64,
    }
}

/// A sum of two `i64` values times a small factor stays well inside
/// `i128` range.
proof fn lemma_small_scale(a: int, b: int) by (nonlinear_arith)
    requires
        -0x1_0000_0000_0000_0000 <= a <= 0x1_0000_0000_0000_0000,
        0 <= b <= 100_000,
    ensures
        -2_000_000_000_000_000_000_000_000 <= a * b <= 2_000_000_000_000_000_000_000_000,
{
}

/// Division truncated toward zero on wide integers.
fn trunc_div_wide(a: i128, b: i128) -> (q: i128)
    requires
        b != 0,
        i128::MIN < a,
        i128::MIN < b,
    ensures
        q == tdiv(a as int, b as int),
{
    let ua: u128 = if a < 0 {
        (-a) as u128
    } else {
        a as u128
    };
    let ub: u128 = if b < 0 {
        (-b) as u128
    } else {
        b as u128
    };
    let uq: u128 = ua / ub;
    proof {
        vstd::arithmetic::div_mod::lemma_div_nonincreasing(ua as int, ub as int);
    }
    if (a < 0) != (b < 0) {
        -(uq as i128)
    } else {
        uq as i128
    }
}

/// One projected coordinate: exact truncation and clamping.
fn project_coord_exec(m: &Rat, dim: usize) -> (c: i64)
    requires
        1 <= dim <= 100_000,
    ensures
        c as int == project_coord(m@, dim as int),
        0 <= c < dim,
{
    let n: i64 = m.num();
    let d: i64 = m.den();
    proof {
        lemma_small_scale(n as int + d as int, dim as int);
    }
    let raw = trunc_div_wide((n as i128 + d as i128) * (dim as i128), 2 * (d as i128));
    if raw < 0 {
        0
    } else if raw > dim as i128 - 1 {
        (dim - 1) as i64
    } else {
        raw as i64
    }
}

/// The quantized depth of one coordinate.
fn project_depth_exec(m: &Rat) -> (c: i64)
    ensures
        c as int == project_depth(m@),
        0 <= c <= 255,
{
    let n: i64 = m.num();
    let d: i64 = m.den();
    proof {
        lemma_small_scale(n as int + d as int, 255);
    }
    let raw = trunc_div_wide((n as i128 + d as i128) * 255, 2 * (d as i128));
    if raw < 0 {
        0
    } else if raw > 255 {
        255
    } else {
        raw as i64
    }
}

/// Projects a model-space vertex into screen space: x and y onto the
/// pixel grid, z onto the quantized depth range.
pub fn project_vertex(v: &Vector3<Rat>, width: usize, height: usize) -> (p: Vector3<i64>)
    requires
        1 <= width <= 100_000,
        1 <= height <= 100_000,
    ensures
        p == proj_vec(*v, width as int, height as int),
        0 <= p.x < width,
        0 <= p.y < height,
        0 <= p.z <= 255,
{
    Vector3 {
        x: project_coord_exec(&v.x, width),
        y: project_coord_exec(&v.y, height),
        z: project_depth_exec(&v.z),
    }
}

/// A vertex as the sequence of its three component values.
pub open spec fn vert_seq(v: Vector3<Rat>) -> Seq<RatV> {
    seq![v.x@, v.y@, v.z@]
}

/// Component `i` of a rotated vertex: the dot product of matrix row `i`
/// with the vertex as a column.
pub open spec fn rot_comp(m: Seq<Seq<RatV>>, p: (RatV, RatV, RatV), i: int) -> RatV {
    dot_v(m[i], seq![p.0, p.1, p.2])
}

/// Applies a 3 by 3 rotation to a vertex held as a column matrix;
/// `None` exactly when an exact canonical intermediate of one of the
/// three row dot products leaves `i64` range.
pub fn rotate_vertex(rot: &Matrix, v: &Vector3<Rat>) -> (r: Option<Vector3<Rat>>)
    requires
        rot@.len() == 3,
        rot.spec_cols() == 3,
    ensures
        r matches Some(w) ==> rat_eq(w.x@, rot_comp(rot@, (v.x@, v.y@, v.z@), 0)) && rat_eq(
            w.y@,
            rot_comp(rot@, (v.x@, v.y@, v.z@), 1),
        ) && rat_eq(w.z@, rot_comp(rot@, (v.x@, v.y@, v.z@), 2)),
        r is Some <==> forall|c: int|
            0 <= c < 3 ==> #[trigger] dot_partial(rot@[c], vert_seq(*v)) is Some,
{
    let mut rows: Vec<Vector> = Vec::new();
    let mut rx: Vec<Rat> = Vec::new();
    rx.push(v.x);
    rows.push(Vector::new(rx));
    let mut ry: Vec<Rat> = Vec::new();
    ry.push(v.y);
    rows.push(Vector::new(ry));
    let mut rz: Vec<Rat> = Vec::new();
    rz.push(v.z);
    rows.push(Vector::new(rz));
    let colm = Matrix::new(rows);
    proof {
        assert(col_v(colm@, 0) =~= seq![v.x@, v.y@, v.z@]);
    }
    let prod = match rot.mul(&colm) {
        Some(m) => m,
        None => {
            proof {
                if forall|c: int|
                    0 <= c < 3 ==> #[trigger] dot_partial(rot@[c], vert_seq(*v)) is Some {
                    assert forall|c: int, j: int|
                        0 <= c < rot@.len() && 0 <= j < colm.spec_cols() implies #[trigger] dot_partial(
                        rot@[c],
                        col_v(colm@, j),
                    ) is Some by {
                        assert(dot_partial(rot@[c], vert_seq(*v)) is Some);
                    }
                    assert(false);
                }
            }
            return None;
        },
    };
    let pv = prod.to_vector();
    proof {
        assert(mul_entry(rot@, colm@, 0, 0) == rot_comp(rot@, (v.x@, v.y@, v.z@), 0));
        assert(mul_entry(rot@, colm@, 1, 0) == rot_comp(rot@, (v.x@, v.y@, v.z@), 1));
        assert(mul_entry(rot@, colm@, 2, 0) == rot_comp(rot@, (v.x@, v.y@, v.z@), 2));
        assert forall|c: int|
            0 <= c < 3 implies #[trigger] dot_partial(rot@[c], vert_seq(*v)) is Some by {
            assert(dot_partial(rot@[c], col_v(colm@, 0)) is Some);
        }
    }
    Some(Vector3 { x: pv.get(0), y: pv.get(1), z: pv.get(2) })
}

/// Rotates every vertex of a mesh by a 3 by 3 matrix, keeping the faces;
/// `None` exactly when some exact canonical intermediate of a rotated
/// coordinate leaves `i64` range.
pub fn rotate_obj(rot: &Matrix, obj: &ObjFile) -> (r: Option<ObjFile>)
    requires
        rot@.len() == 3,
        rot.spec_cols() == 3,
    ensures
        r is Some <==> forall|k: int, c: int|
            0 <= k < obj.verticies@.len() && 0 <= c < 3 ==> #[trigger] dot_partial(
                rot@[c],
                vert_seq(obj.verticies@[k]),
            ) is Some,
        r matches Some(o2) ==> o2.faces@ == obj.faces@ && o2.verticies@.len()
            == obj.verticies@.len() && forall|k: int|
            0 <= k < obj.verticies@.len() ==> rat_eq(
                (#[trigger] o2.verticies@[k]).x@,
                rot_comp(
                    rot@,
                    (obj.verticies@[k].x@, obj.verticies@[k].y@, obj.verticies@[k].z@),
                    0,
                ),
            ) && rat_eq(
                o2.verticies@[k].y@,
                rot_comp(
                    rot@,
                    (obj.verticies@[k].x@, obj.verticies@[k].y@, obj.verticies@[k].z@),
                    1,
                ),
            ) && rat_eq(
                o2.verticies@[k].z@,
                rot_comp(
                    rot@,
                    (obj.verticies@[k].x@, obj.verticies@[k].y@, obj.verticies@[k].z@),
                    2,
                ),
            ),
{
    let n: usize = obj.verticies.len();
    let mut verts: Vec<Vector3<Rat>> = Vec::new();
    let mut i: usize = 0;
    while i < n
        invariant
            i <= n,
            n == obj.verticies@.len(),
            rot@.len() == 3,
            rot.spec_cols() == 3,
            verts@.len() == i,
            forall|k: int, c: int|
                0 <= k < i && 0 <= c < 3 ==> #[trigger] dot_partial(
                    rot@[c],
                    vert_seq(obj.verticies@[k]),
                ) is Some,
            forall|k: int|
                0 <= k < i ==> rat_eq(
                    (#[trigger] verts@[k]).x@,
                    rot_comp(
                        rot@,
                        (obj.verticies@[k].x@, obj.verticies@[k].y@, obj.verticies@[k].z@),
                        0,
                    ),
                ) && rat_eq(
                    verts@[k].y@,
                    rot_comp(
                        rot@,
                        (obj.verticies@[k].x@, obj.verticies@[k].y@, obj.verticies@[k].z@),
                        1,
                    ),
                ) && rat_eq(
                    verts@[k].z@,
                    rot_comp(
                        rot@,
                        (obj.verticies@[k].x@, obj.verticies@[k].y@, obj.verticies@[k].z@),
                        2,
                    ),
                ),
        decreases n - i,
    {
        match rotate_vertex(rot, &obj.verticies[i]) {
            Some(w) => verts.push(w),
            None => {
                proof {
                    assert(!(forall|c: int|
                        0 <= c < 3 ==> #[trigger] dot_partial(
                            rot@[c],
                            vert_seq(obj.verticies@[i as int]),
                        ) is Some));
                }
                return None;
            },
        }
        i = i + 1;
    }
    let nf: usize = obj.faces.len();
    let mut faces: Vec<Face> = Vec::new();
    let mut i: usize = 0;
    while i < nf
        invariant
            i <= nf,
            nf == obj.faces@.len(),
            faces@.len() == i,
            forall|k: int| 0 <= k < i ==> #[trigger] faces@[k] == obj.faces@[k],
        decreases nf - i,
    {
        let f = &obj.faces[i];
        faces.push(Face { one: f.one, two: f.two, three: f.three });
        i = i + 1;
    }
    proof {
        assert(faces@ =~= obj.faces@);
    }
    Some(ObjFile { verticies: verts, faces })
}

/// Draws the outline of the triangle `a b c`: the line from `a` to `b`,
/// then from `c` to `b`, then from `a` to `c`, stopping at the first
/// line with an endpoint outside the buffer, which fails the call with
/// `CoordinateOutOfBounds`.
pub fn draw_triangle(
    point_a: Point,
    point_b: Point,
    point_c: Point,
    img: &mut Image<RGBA>,
    color: Color,
) -> (r: Result<(), DrawError>)
    requires
        old(img).wf(),
        -0x1000_0000 <= point_a.x as int <= 0x1000_0000,
        -0x1000_0000 <= point_a.y as int <= 0x1000_0000,
        -0x1000_0000 <= point_b.x as int <= 0x1000_0000,
        -0x1000_0000 <= point_b.y as int <= 0x1000_0000,
        -0x1000_0000 <= point_c.x as int <= 0x1000_0000,
        -0x1000_0000 <= point_c.y as int <= 0x1000_0000,
    ensures
        final (img).wf(),
        final (img).spec_width() == old(img).spec_width(),
        final (img).spec_height() == old(img).spec_height(),
        r is Ok <==> tri_edges_in(point_a, point_b, point_c, old(img).spec_width(), old(img).spec_height()),
        r is Err ==> r == Result::<(), DrawError>::Err(DrawError::CoordinateOutOfBounds),
        forall|x: int, y: int|
            0 <= x < old(img).spec_width() && 0 <= y < old(img).spec_height()
                ==> final (img)@[pix_index(old(img).spec_width(), x, y)] == (if wire_covered(
                point_a,
                point_b,
                point_c,
                old(img).spec_width(),
                old(img).spec_height(),
                x,
                y,
            ) {
                rgba_of(color)
            } else {
                old(img)@[pix_index(old(img).spec_width(), x, y)]
            }),
{
    let ghost w = img.spec_width();
    let ghost h = img.spec_height();
    let ghost img0 = img@;
    let r1 = draw_line(&point_a, &point_b, img, color);
    if r1.is_err() {
        return Err(DrawError::CoordinateOutOfBounds);
    }
    let ghost img1 = img@;
    let r2 = draw_line(&point_c, &point_b, img, color);
    if r2.is_err() {
        proof {
            assert forall|x: int, y: int| 0 <= x < w && 0 <= y < h implies img@[pix_index(
                w,
                x,
                y,
            )] == (if wire_covered(point_a, point_b, point_c, w, h, x, y) {
                rgba_of(color)
            } else {
                img0[pix_index(w, x, y)]
            }) by {
                assert(img1[pix_index(w, x, y)] == (if on_line(
                    point_a.x as int,
                    point_a.y as int,
                    point_b.x as int,
                    point_b.y as int,
                    x,
                    y,
                ) {
                    rgba_of(color)
                } else {
                    img0[pix_index(w, x, y)]
                }));
            }
        }
        return Err(DrawError::CoordinateOutOfBounds);
    }
    let ghost img2 = img@;
    let r3 = draw_line(&point_a, &point_c, img, color);
    if r3.is_err() {
        return Err(DrawError::CoordinateOutOfBounds);
    }
    proof {
        assert forall|x: int, y: int| 0 <= x < w && 0 <= y < h implies img@[pix_index(w, x, y)]
            == (if wire_covered(point_a, point_b, point_c, w, h, x, y) {
            rgba_of(color)
        } else {
            img0[pix_index(w, x, y)]
        }) by {
            assert(img1[pix_index(w, x, y)] == (if on_line(
                point_a.x as int,
                point_a.y as int,
                point_b.x as int,
                point_b.y as int,
                x,
                y,
            ) {
                rgba_of(color)
            } else {
                img0[pix_index(w, x, y)]
            }));
            assert(img2[pix_index(w, x, y)] == (if on_line(
                point_c.x as int,
                point_c.y as int,
                point_b.x as int,
                point_b.y as int,
                x,
                y,
            ) {
                rgba_of(color)
            } else {
                img1[pix_index(w, x, y)]
            }));
            assert(img@[pix_index(w, x, y)] == (if on_line(
                point_a.x as int,
                point_a.y as int,
                point_c.x as int,
                point_c.y as int,
                x,
                y,
            ) {
                rgba_of(color)
            } else {
                img2[pix_index(w, x, y)]
            }));
        }
    }
    Ok(())
}

/// All three edges have both endpoints inside the buffer.
pub open spec fn tri_edges_in(a: Point, b: Point, c: Point, w: int, h: int) -> bool {
    point_in(a.x as int, a.y as int, w, h) && point_in(b.x as int, b.y as int, w, h) && point_in(
        c.x as int,
        c.y as int,
        w,
        h,
    )
}

/// The pixel lies on whichever outline edges were drawn: the edges are
/// attempted in order and drawing stops at the first edge with an
/// endpoint outside the buffer.
pub open spec fn wire_covered(a: Point, b: Point, c: Point, w: int, h: int, x: int, y: int) -> bool {
    let ia = point_in(a.x as int, a.y as int, w, h);
    let ib = point_in(b.x as int, b.y as int, w, h);
    let ic = point_in(c.x as int, c.y as int, w, h);
    ||| (ia && ib && on_line(a.x as int, a.y as int, b.x as int, b.y as int, x, y))
    ||| (ia && ib && ic && on_line(c.x as int, c.y as int, b.x as int, b.y as int, x, y))
    ||| (ia && ib && ic && on_line(a.x as int, a.y as int, c.x as int, c.y as int, x, y))
}

/// Every vertex index of the face names an entry of the vertex list
/// (indices are 1-based).
pub open spec fn face_valid(f: Face, nverts: int) -> bool {
    1 <= f.one <= nverts && 1 <= f.two <= nverts && 1 <= f.three <= nverts
}

/// The screen-space triangle of a valid face: its three vertices
/// resolved and projected.
pub open spec fn face_triangle(f: Face, vs: Seq<Vector3<Rat>>, w: int, h: int) -> Triangle {
    Triangle {
        vector_a: proj_vec(vs[f.one - 1], w, h),
        vector_b: proj_vec(vs[f.two - 1], w, h),
        vector_c: proj_vec(vs[f.three - 1], w, h),
    }
}

/// Processing one face takes the buffers from the first state to the
/// second: a valid face is projected and depth-test drawn, an invalid
/// one is skipped and changes nothing.
pub open spec fn face_step(
    f: Face,
    vs: Seq<Vector3<Rat>>,
    w: int,
    h: int,
    color: RGBA,
    img0: Seq<RGBA>,
    zb0: Option<Seq<Option<RatV>>>,
    img1: Seq<RGBA>,
    zb1: Option<Seq<Option<RatV>>>,
) -> bool {
    if face_valid(f, vs.len() as int) {
        tri_prog(img1, img0, zb1, zb0, w, h, face_triangle(f, vs, w, h), color, h, 0)
    } else {
        img1 == img0 && zb1 == zb0
    }
}

/// The buffers went from the first state to the second by processing
/// the faces in order, each step as `face_step` describes.
pub open spec fn renders(
    fs: Seq<Face>,
    vs: Seq<Vector3<Rat>>,
    w: int,
    h: int,
    color: RGBA,
    img0: Seq<RGBA>,
    zb0: Option<Seq<Option<RatV>>>,
    img1: Seq<RGBA>,
    zb1: Option<Seq<Option<RatV>>>,
) -> bool
    decreases fs.len(),
{
    if fs.len() == 0 {
        img1 == img0 && zb1 == zb0
    } else {
        exists|imgm: Seq<RGBA>, zbm: Option<Seq<Option<RatV>>>|
            renders(fs.drop_last(), vs, w, h, color, img0, zb0, imgm, zbm) && #[trigger] face_step(
                fs.last(),
                vs,
                w,
                h,
                color,
                imgm,
                zbm,
                img1,
                zb1,
            )
    }
}

/// The depth-buffer contents an optional buffer holds.
pub open spec fn zb_view(o: Option<DepthBuffer>) -> Option<Seq<Option<RatV>>> {
    match o {
        Option::Some(z) => Option::Some(z@),
        Option::None => Option::<Seq<Option<RatV>>>::None,
    }
}

/// Draws a whole mesh: for each face in order, resolves its three
/// 1-based vertex indices — a face with a missing index is silently
/// skipped — projects the vertices into screen space with quantized
/// depth, and fills the triangle with depth testing against the given
/// buffer. The call always succeeds; stray off-screen geometry only
/// skips pixels.
pub fn draw_obj_file(
    obj: &ObjFile,
    color: Color,
    img: &mut Image<RGBA>,
    z_buff_opt: &mut Option<DepthBuffer>,
) -> (r: Result<(), DrawError>)
    requires
        old(img).wf(),
        1 <= old(img).spec_width() <= 100_000,
        1 <= old(img).spec_height() <= 100_000,
        *old(z_buff_opt) matches Some(zb) ==> zb.wf() && zb.spec_width() == old(
            img,
        ).spec_width() && zb.spec_height() == old(img).spec_height() && zb_wf(zb@),
    ensures
        r is Ok,
        final (img).wf(),
        final (img).spec_width() == old(img).spec_width(),
        final (img).spec_height() == old(img).spec_height(),
        *old(z_buff_opt) is None ==> *final (z_buff_opt) is None,
        *old(z_buff_opt) matches Some(zb0) ==> *final (z_buff_opt) matches Some(zb1) && zb1.wf()
            && zb1.spec_width() == zb0.spec_width() && zb1.spec_height() == zb0.spec_height()
            && zb_wf(zb1@),
        renders(
            obj.faces@,
            obj.verticies@,
            old(img).spec_width(),
            old(img).spec_height(),
            rgba_of(color),
            old(img)@,
            zb_view(*old(z_buff_opt)),
            final (img)@,
            zb_view(*final (z_buff_opt)),
        ),
{
    let ghost w = img.spec_width();
    let ghost h = img.spec_height();
    let ghost img0 = img@;
    let ghost zb0 = zb_view(*z_buff_opt);
    let width = img.width();
    let height = img.height();
    let nv: usize = obj.verticies.len();
    let nf: usize = obj.faces.len();
    let rgba = color.rgba_value();
    let mut k: usize = 0;
    proof {
        assert(obj.faces@.take(0) =~= Seq::<Face>::empty());
    }
    while k < nf
        invariant
            k <= nf,
            nf == obj.faces@.len(),
            nv == obj.verticies@.len(),
            img.wf(),
            img.spec_width() == w,
            img.spec_height() == h,
            width == w,
            height == h,
            1 <= w <= 100_000,
            1 <= h <= 100_000,
            rgba == rgba_of(color),
            zb0 is None ==> *z_buff_opt is None,
            zb0 is Some ==> (*z_buff_opt matches Some(zb) && zb.wf() && zb.spec_width() == w
                && zb.spec_height() == h && zb_wf(zb@)),
            renders(obj.faces@.take(k as int), obj.verticies@, w, h, rgba_of(color), img0, zb0, img@, zb_view(*z_buff_opt)),
        decreases nf - k,
    {
        let f = &obj.faces[k];
        let ghost pim = img@;
        let ghost pzb = zb_view(*z_buff_opt);
        if f.one >= 1 && f.one <= nv && f.two >= 1 && f.two <= nv && f.three >= 1 && f.three
            <= nv {
            let pa = project_vertex(&obj.verticies[f.one - 1], width, height);
            let pb = project_vertex(&obj.verticies[f.two - 1], width, height);
            let pc = project_vertex(&obj.verticies[f.three - 1], width, height);
            let t = Triangle { vector_a: pa, vector_b: pb, vector_c: pc };
            proof {
                assert(t == face_triangle(obj.faces@[k as int], obj.verticies@, w, h));
                assert(tri_bounded(t));
            }
            let res = t.draw(rgba, img, z_buff_opt);
            proof {
                assert(face_step(
                    obj.faces@[k as int],
                    obj.verticies@,
                    w,
                    h,
                    rgba_of(color),
                    pim,
                    pzb,
                    img@,
                    zb_view(*z_buff_opt),
                ));
            }
        } else {
            proof {
                assert(!face_valid(obj.faces@[k as int], nv as int));
                assert(face_step(
                    obj.faces@[k as int],
                    obj.verticies@,
                    w,
                    h,
                    rgba_of(color),
                    pim,
                    pzb,
                    img@,
                    zb_view(*z_buff_opt),
                ));
            }
        }
        proof {
            assert(obj.faces@.take(k + 1).drop_last() =~= obj.faces@.take(k as int));
            assert(obj.faces@.take(k + 1).last() == obj.faces@[k as int]);
            assert(face_step(
                obj.faces@.take(k + 1).last(),
                obj.verticies@,
                w,
                h,
                rgba_of(color),
                pim,
                pzb,
                img@,
                zb_view(*z_buff_opt),
            ));
            assert(renders(
                obj.faces@.take(k + 1),
                obj.verticies@,
                w,
                h,
                rgba_of(color),
                img0,
                zb0,
                img@,
                zb_view(*z_buff_opt),
            ));
        }
        k = k + 1;
    }
    proof {
        assert(obj.faces@.take(nf as int) =~= obj.faces@);
    }
    Ok(())
}

} // verus!
