use tiny_renderer::colors::{Color, RGBA};
use tiny_renderer::draw::{draw_obj_file, draw_triangle, project_vertex, rotate_vertex};
use tiny_renderer::image::{DepthBuffer, DrawError, Image};
use tiny_renderer::line::draw_line;
use tiny_renderer::matrix::Matrix;
use tiny_renderer::obj::{parse_face, parse_obj_file, parse_vertex};
use tiny_renderer::rat::Rat;
use tiny_renderer::triangle::Triangle;
use tiny_renderer::types::{Point, Vector3};
use tiny_renderer::vector::Vector;

const BG: RGBA = RGBA { r: 0, g: 0, b: 0, a: 0 };

fn count_colored(img: &Image<RGBA>) -> usize {
    let mut n = 0;
    for y in 0..img.height() {
        for x in 0..img.width() {
            if img.get(x, y).unwrap() != BG {
                n += 1;
            }
        }
    }
    n
}

#[test]
fn test_triangles() {
    let width: usize = 128;
    let height: usize = 128;
    let mut img = Image::<RGBA>::new(width, height, BG);
    let mut no_depth: Option<DepthBuffer> = None;

    let vector_a = Vector3 { x: 7i64, y: 45, z: 0 };
    let vector_b = Vector3 { x: 35i64, y: 100, z: 0 };
    let vector_c = Vector3 { x: 45i64, y: 60, z: 0 };
    let triangle_1 = Triangle { vector_a, vector_b, vector_c };

    let vector_d = Vector3 { x: 120i64, y: 35, z: 0 };
    let vector_e = Vector3 { x: 90i64, y: 5, z: 0 };
    let vector_f = Vector3 { x: 45i64, y: 110, z: 0 };
    let triangle_2 = Triangle { vector_a: vector_d, vector_b: vector_e, vector_c: vector_f };

    let vector_g = Vector3 { x: 115i64, y: 83, z: 0 };
    let vector_h = Vector3 { x: 80i64, y: 90, z: 0 };
    let vector_i = Vector3 { x: 85i64, y: 120, z: 0 };
    let triangle_3 = Triangle { vector_a: vector_g, vector_b: vector_h, vector_c: vector_i };

    let _ = triangle_1.draw(Color::Red.rgba_value(), &mut img, &mut no_depth);
    let _ = triangle_2.draw(Color::White.rgba_value(), &mut img, &mut no_depth);
    let _ = triangle_3.draw(Color::Green.rgba_value(), &mut img, &mut no_depth);

    assert!(count_colored(&img) > 0);
}

#[test]
fn flat_line_writes_eleven_pixels() {
    let mut img = Image::<RGBA>::new(20, 20, BG);
    let a = Point { x: 0, y: 0 };
    let b = Point { x: 10, y: 0 };
    draw_line(&a, &b, &mut img, Color::White).unwrap();
    assert_eq!(count_colored(&img), 11);
    for x in 0..=10usize {
        assert_eq!(img.get(x, 0).unwrap(), Color::White.rgba_value());
    }
}

#[test]
fn steep_line_writes_eleven_pixels() {
    let mut img = Image::<RGBA>::new(20, 20, BG);
    let a = Point { x: 0, y: 0 };
    let b = Point { x: 0, y: 10 };
    draw_line(&a, &b, &mut img, Color::White).unwrap();
    assert_eq!(count_colored(&img), 11);
    for y in 0..=10usize {
        assert_eq!(img.get(0, y).unwrap(), Color::White.rgba_value());
    }
}

#[test]
fn single_point_line_writes_one_pixel() {
    let mut img = Image::<RGBA>::new(8, 8, BG);
    let a = Point { x: 3, y: 4 };
    let b = Point { x: 3, y: 4 };
    draw_line(&a, &b, &mut img, Color::Red).unwrap();
    assert_eq!(count_colored(&img), 1);
    assert_eq!(img.get(3, 4).unwrap(), Color::Red.rgba_value());
}

#[test]
fn out_of_bounds_line_fails_and_writes_nothing() {
    let mut img = Image::<RGBA>::new(8, 8, BG);
    let a = Point { x: -1, y: 0 };
    let b = Point { x: 5, y: 0 };
    let r = draw_line(&a, &b, &mut img, Color::Red);
    assert_eq!(r, Err(DrawError::CoordinateOutOfBounds));
    assert_eq!(count_colored(&img), 0);
}

#[test]
fn image_bounds_are_checked() {
    let mut img = Image::<RGBA>::new(4, 4, BG);
    assert_eq!(img.set(4, 0, Color::Red.rgba_value()), Err(DrawError::CoordinateOutOfBounds));
    assert_eq!(img.get(0, 4), Err(DrawError::CoordinateOutOfBounds));
    assert_eq!(img.set(3, 3, Color::Red.rgba_value()), Ok(()));
    assert_eq!(img.get(3, 3).unwrap(), Color::Red.rgba_value());
}

#[test]
fn triangle_fill_includes_inside_excludes_outside() {
    let mut img = Image::<RGBA>::new(16, 16, BG);
    let mut no_depth: Option<DepthBuffer> = None;
    let t = Triangle {
        vector_a: Vector3 { x: 0i64, y: 0, z: 0 },
        vector_b: Vector3 { x: 10i64, y: 0, z: 0 },
        vector_c: Vector3 { x: 0i64, y: 10, z: 0 },
    };
    t.draw(Color::Green.rgba_value(), &mut img, &mut no_depth).unwrap();
    assert_eq!(img.get(1, 1).unwrap(), Color::Green.rgba_value());
    assert_eq!(img.get(9, 9).unwrap(), BG);
}

#[test]
fn degenerate_triangle_fills_nothing() {
    let mut img = Image::<RGBA>::new(16, 16, BG);
    let mut no_depth: Option<DepthBuffer> = None;
    let t = Triangle {
        vector_a: Vector3 { x: 0i64, y: 0, z: 0 },
        vector_b: Vector3 { x: 5i64, y: 5, z: 0 },
        vector_c: Vector3 { x: 10i64, y: 10, z: 0 },
    };
    t.draw(Color::Red.rgba_value(), &mut img, &mut no_depth).unwrap();
    assert_eq!(count_colored(&img), 0);
}

fn depth_triangle(z: i64) -> Triangle {
    Triangle {
        vector_a: Vector3 { x: 0i64, y: 0, z },
        vector_b: Vector3 { x: 10i64, y: 0, z },
        vector_c: Vector3 { x: 0i64, y: 10, z },
    }
}

#[test]
fn nearer_fragment_wins_drawn_last() {
    let mut img = Image::<RGBA>::new(16, 16, BG);
    let mut zbuf = Some(DepthBuffer::new(16, 16));
    depth_triangle(5).draw(Color::Red.rgba_value(), &mut img, &mut zbuf).unwrap();
    depth_triangle(10).draw(Color::Green.rgba_value(), &mut img, &mut zbuf).unwrap();
    assert_eq!(img.get(1, 1).unwrap(), Color::Green.rgba_value());
}

#[test]
fn nearer_fragment_wins_drawn_first() {
    let mut img = Image::<RGBA>::new(16, 16, BG);
    let mut zbuf = Some(DepthBuffer::new(16, 16));
    depth_triangle(10).draw(Color::Green.rgba_value(), &mut img, &mut zbuf).unwrap();
    depth_triangle(5).draw(Color::Red.rgba_value(), &mut img, &mut zbuf).unwrap();
    assert_eq!(img.get(1, 1).unwrap(), Color::Green.rgba_value());
}

#[test]
fn equal_depth_does_not_overwrite() {
    let mut img = Image::<RGBA>::new(16, 16, BG);
    let mut zbuf = Some(DepthBuffer::new(16, 16));
    depth_triangle(5).draw(Color::Red.rgba_value(), &mut img, &mut zbuf).unwrap();
    depth_triangle(5).draw(Color::Green.rgba_value(), &mut img, &mut zbuf).unwrap();
    assert_eq!(img.get(1, 1).unwrap(), Color::Red.rgba_value());
}

#[test]
fn wireframe_triangle_draws_edges() {
    let mut img = Image::<RGBA>::new(16, 16, BG);
    let a = Point { x: 0, y: 0 };
    let b = Point { x: 10, y: 0 };
    let c = Point { x: 0, y: 10 };
    draw_triangle(a, b, c, &mut img, Color::Blue).unwrap();
    assert_eq!(img.get(0, 0).unwrap(), Color::Blue.rgba_value());
    assert_eq!(img.get(10, 0).unwrap(), Color::Blue.rgba_value());
    assert_eq!(img.get(0, 10).unwrap(), Color::Blue.rgba_value());
    assert_eq!(img.get(5, 0).unwrap(), Color::Blue.rgba_value());
    assert_eq!(img.get(0, 5).unwrap(), Color::Blue.rgba_value());
    assert_eq!(img.get(9, 9).unwrap(), BG);
}

#[test]
fn projection_clamps_to_origin_with_min_depth() {
    let v = Vector3 { x: Rat::from_int(-1), y: Rat::from_int(-1), z: Rat::from_int(-1) };
    let p = project_vertex(&v, 100, 100);
    assert_eq!(p.x, 0);
    assert_eq!(p.y, 0);
    assert_eq!(p.z, 0);
}

#[test]
fn projection_maps_center_and_far_plane() {
    let v = Vector3 { x: Rat::from_int(0), y: Rat::from_int(0), z: Rat::from_int(1) };
    let p = project_vertex(&v, 100, 100);
    assert_eq!(p.x, 50);
    assert_eq!(p.y, 50);
    assert_eq!(p.z, 255);
    let w = Vector3 { x: Rat::from_int(1), y: Rat::from_int(1), z: Rat::from_int(0) };
    let q = project_vertex(&w, 100, 100);
    assert_eq!(q.x, 99);
    assert_eq!(q.y, 99);
    assert_eq!(q.z, 127);
}

#[test]
fn rotation_by_identity_keeps_vertex() {
    let rot = Matrix::identity(3);
    let v = Vector3 {
        x: Rat::new(1, 2).unwrap(),
        y: Rat::from_int(-1),
        z: Rat::new(3, 4).unwrap(),
    };
    let w = rotate_vertex(&rot, &v).unwrap();
    assert_eq!(w.x, Rat::new(1, 2).unwrap());
    assert_eq!(w.y, Rat::from_int(-1));
    assert_eq!(w.z, Rat::new(3, 4).unwrap());
}

#[test]
fn quarter_turn_about_vertical_axis() {
    let z = |n: i64| Rat::from_int(n);
    let rot = Matrix::new(vec![
        Vector::new(vec![z(0), z(0), z(1)]),
        Vector::new(vec![z(0), z(1), z(0)]),
        Vector::new(vec![z(-1), z(0), z(0)]),
    ]);
    let v = Vector3 { x: z(1), y: z(0), z: z(0) };
    let w = rotate_vertex(&rot, &v).unwrap();
    assert_eq!(w.x, z(0));
    assert_eq!(w.y, z(0));
    assert_eq!(w.z, z(-1));
}

#[test]
fn parse_face_reads_indices() {
    let f = parse_face(b"f 1/2/3 4/5/6 7/8/9").unwrap();
    assert_eq!(f.one, 1);
    assert_eq!(f.two, 4);
    assert_eq!(f.three, 7);
    assert!(parse_face(b"f 1/2/3 4/5/6").is_none());
    assert!(parse_face(b"f 1 2 3").is_none());
    assert!(parse_face(b"f a/2/3 4/5/6 7/8/9").is_none());
}

#[test]
fn parse_vertex_reads_exact_decimals() {
    let v = parse_vertex(b"v 0.5 -1.25 2").unwrap();
    assert_eq!(v.x, Rat::new(1, 2).unwrap());
    assert_eq!(v.y, Rat::new(-5, 4).unwrap());
    assert_eq!(v.z, Rat::from_int(2));
    assert!(parse_vertex(b"v 1.5 2").is_none());
    assert!(parse_vertex(b"v a b c").is_none());
}

#[test]
fn parse_vertex_accepts_signs_and_bare_dots() {
    let v = parse_vertex(b"v +0.5 1. .25").unwrap();
    assert_eq!(v.x, Rat::new(1, 2).unwrap());
    assert_eq!(v.y, Rat::from_int(1));
    assert_eq!(v.z, Rat::new(1, 4).unwrap());
    let w = parse_vertex(b"v -.5 +2 -3.").unwrap();
    assert_eq!(w.x, Rat::new(-1, 2).unwrap());
    assert_eq!(w.y, Rat::from_int(2));
    assert_eq!(w.z, Rat::from_int(-3));
    assert!(parse_vertex(b"v . 1 2").is_none());
    assert!(parse_vertex(b"v + 1 2").is_none());
    assert!(parse_vertex(b"v 1e2 1 2").is_none());
}

#[test]
fn parse_obj_text_skips_malformed_lines() {
    let text = b"# comment\nv 0 0 0\nv 1.5 0 0\nv 0 1 0\nnot a line\nf 1/1/1 2/2/2 3/3/3\nf 1/1/1 2/2/2\n";
    let obj = parse_obj_file(text);
    assert_eq!(obj.verticies.len(), 3);
    assert_eq!(obj.faces.len(), 1);
    assert_eq!(obj.verticies[1].x, Rat::new(3, 2).unwrap());
    assert_eq!(obj.faces[0].one, 1);
    assert_eq!(obj.faces[0].two, 2);
    assert_eq!(obj.faces[0].three, 3);
}

#[test]
fn driver_fills_and_skips_bad_faces() {
    let text = b"v -1 -1 0\nv 1 -1 0\nv -1 1 0\nf 1/1/1 2/2/2 3/3/3\nf 1/1/1 2/2/2 9/9/9\n";
    let obj = parse_obj_file(text);
    let mut img = Image::<RGBA>::new(50, 50, BG);
    let mut zbuf = Some(DepthBuffer::new(50, 50));
    draw_obj_file(&obj, Color::White, &mut img, &mut zbuf).unwrap();
    assert!(count_colored(&img) > 0);
    assert_eq!(img.get(2, 2).unwrap(), Color::White.rgba_value());
    assert!(zbuf.is_some());
}

#[test]
fn color_channel_values() {
    assert_eq!(Color::White.rgba_value(), RGBA { r: 255, g: 255, b: 255, a: 255 });
    assert_eq!(Color::Red.rgba_value(), RGBA { r: 255, g: 0, b: 0, a: 255 });
    assert_eq!(Color::Green.rgba_value(), RGBA { r: 0, g: 255, b: 0, a: 255 });
    assert_eq!(Color::Blue.rgba_value(), RGBA { r: 0, g: 0, b: 255, a: 255 });
    assert_eq!(Color::Yellow.rgba_value(), RGBA { r: 255, g: 200, b: 0, a: 255 });
}

#[test]
fn triangle_area_is_half_shoelace() {
    let t = Triangle {
        vector_a: Vector3 { x: 0i64, y: 0, z: 0 },
        vector_b: Vector3 { x: 10i64, y: 0, z: 0 },
        vector_c: Vector3 { x: 0i64, y: 10, z: 0 },
    };
    assert_eq!(t.area(), Rat::from_int(50));
    let u = Triangle {
        vector_a: t.vector_b.clone(),
        vector_b: t.vector_a.clone(),
        vector_c: t.vector_c.clone(),
    };
    assert_eq!(u.area(), Rat::from_int(-50));
}

#[test]
fn create_from_refs_copies_vertices() {
    let a = Vector3 { x: 1i64, y: 2, z: 3 };
    let b = Vector3 { x: 4i64, y: 5, z: 6 };
    let c = Vector3 { x: 7i64, y: 8, z: 9 };
    let t = Triangle::create_from_refs(&a, &b, &c);
    assert_eq!(t.vector_a.x, 1);
    assert_eq!(t.vector_b.y, 5);
    assert_eq!(t.vector_c.z, 9);
}
