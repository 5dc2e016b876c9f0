use colony_sim::geometry::{is_intersect, Circle, Point, Rectangle, Rotation};

/// Coordinates per world unit in the rectangle tests.
const UNIT: f32 = 1000.0;

fn pt(x: f32, y: f32) -> Point {
    Point::new((x * UNIT).round() as i64, (y * UNIT).round() as i64)
}

fn ipt(x: i64, y: i64) -> Point {
    Point::new(x, y)
}

/// The exact rotation nearest to `angle` among those with a hypotenuse of
/// at most 1024.
fn rotation_for(angle: f32) -> Rotation {
    let mut best = (f32::MAX, i64::MAX, 0i64, 1i64);
    for num in -32i64..=32 {
        for den in -32i64..=32 {
            let hyp = num * num + den * den;
            if hyp == 0 || hyp > 1024 {
                continue;
            }
            let a = 2.0 * (num as f32).atan2(den as f32);
            let mut diff = (a - angle).abs() % (2.0 * std::f32::consts::PI);
            if diff > std::f32::consts::PI {
                diff = 2.0 * std::f32::consts::PI - diff;
            }
            if diff < best.0 - 1e-6 || (diff <= best.0 + 1e-6 && hyp < best.1) {
                best = (diff, hyp, num, den);
            }
        }
    }
    Rotation::from_half_angle_tangent(best.2, best.3)
}

fn rect(length: f32, width: f32, angle: f32) -> Rectangle {
    Rectangle {
        center: pt(0., 0.),
        length: (length * UNIT) as i64,
        width: (width * UNIT) as i64,
        rotation: rotation_for(angle),
    }
}

#[test]
fn unit_circle_line_intersect() {
    let circle = Circle { center: ipt(1, 1), radius: 1 };

    assert!(circle.is_intersect_line(ipt(2, 100), ipt(2, -100))); // touch on (2,1)
    assert!(circle.is_intersect_line(ipt(0, 2), ipt(2, 1))); // touch on (1,2)
    assert!(circle.is_intersect_line(ipt(2, 2), ipt(0, 0))); // touch on (0,1)
    assert!(circle.is_intersect_line(ipt(0, 0), ipt(2, 0))); // touch on (0,1)

    // touch on (a,a), where a = 1 + sqrt(2) / 2, in thousandths
    let scaled = Circle { center: pt(1., 1.), radius: 1000 };
    let sqrt2 = 2f32.sqrt();
    assert!(scaled.is_intersect_line(pt(0., 2. + sqrt2), pt(2. + sqrt2, 0.)));

    // not intersect
    assert!(!circle.is_intersect_line(ipt(23420, 234230), ipt(23422, 234230)));
}

#[test]
fn unit_circle_line_intersect_tangent_point() {
    let circle = Circle { center: ipt(0, 0), radius: 10 };
    assert!(circle.is_intersect_line(ipt(0, 10), ipt(100, 10)));
    assert!(circle.is_intersect_line(ipt(100, 10), ipt(0, 10)));
    assert!(circle.is_intersect_line(ipt(-10, 0), ipt(234234230, 23420)));
}

#[test]
fn line_test_tolerance() {
    // the line y = 11 misses the circle of radius 10 about the origin:
    // r²·|AB|² − det² = 100·1 − 121 = −21
    let circle = Circle { center: ipt(0, 0), radius: 10 };
    assert!(!circle.is_intersect_line(ipt(0, 11), ipt(1, 11)));
    assert!(!circle.is_intersect_line_with_epsilon(ipt(0, 11), ipt(1, 11), 21));
    assert!(circle.is_intersect_line_with_epsilon(ipt(0, 11), ipt(1, 11), 22));
}

#[test]
fn square_within_rotation_point_intersect() {
    let rect = rect(10., 10., 0.);

    assert!(rect.is_intersect_point(pt(0., 0.)));

    // vertices
    assert!(rect.is_intersect_point(pt(-5., -5.)));
    assert!(rect.is_intersect_point(pt(5., 5.)));
    assert!(rect.is_intersect_point(pt(5., -5.)));
    assert!(rect.is_intersect_point(pt(-5., 5.)));

    // points on edges
    assert!(rect.is_intersect_point(pt(-5., 0.)));
    assert!(rect.is_intersect_point(pt(5., 0.)));
    assert!(rect.is_intersect_point(pt(0., -5.)));
    assert!(rect.is_intersect_point(pt(0., 5.)));

    // points within rect
    assert!(rect.is_intersect_point(pt(2., -2.)));
    assert!(rect.is_intersect_point(pt(1.5235, -4.3463)));

    // outside of rect
    assert!(!rect.is_intersect_point(pt(6., -0.)));
    assert!(!rect.is_intersect_point(pt(6., -6.)));
    assert!(!rect.is_intersect_point(pt(234., -2432.)));
}

#[test]
fn square_with_rotation_point_intersect() {
    let rect = rect(10., 10., std::f32::consts::PI);

    assert!(rect.is_intersect_point(pt(0., 0.)));

    // vertices
    assert!(rect.is_intersect_point(pt(-5., -5.)));
    assert!(rect.is_intersect_point(pt(5., 5.)));
    assert!(rect.is_intersect_point(pt(5., -5.)));
    assert!(rect.is_intersect_point(pt(-5., 5.)));

    // points on edges
    assert!(rect.is_intersect_point(pt(-5., 0.)));
    assert!(rect.is_intersect_point(pt(5., 0.)));
    assert!(rect.is_intersect_point(pt(0., -5.)));
    assert!(rect.is_intersect_point(pt(0., 5.)));

    // points within rect
    assert!(rect.is_intersect_point(pt(2., -2.)));
    assert!(rect.is_intersect_point(pt(1.5235, -4.3463)));

    // outside of rect
    assert!(!rect.is_intersect_point(pt(6., -0.)));
    assert!(!rect.is_intersect_point(pt(6., -6.)));
    assert!(!rect.is_intersect_point(pt(234., -2432.)));
}

#[test]
fn rect_without_rotation_point_intersect() {
    let rect = rect(10., 5., 0.);

    assert!(rect.is_intersect_point(pt(0., 0.)));

    // vertices
    assert!(rect.is_intersect_point(pt(-2.5, -5.)));
    assert!(rect.is_intersect_point(pt(2.5, 5.)));
    assert!(rect.is_intersect_point(pt(2.5, -5.)));
    assert!(rect.is_intersect_point(pt(-2.5, 5.)));

    // points on edges
    assert!(rect.is_intersect_point(pt(-2.5, 0.)));
    assert!(rect.is_intersect_point(pt(2.5, 0.)));
    assert!(rect.is_intersect_point(pt(0., -5.)));
    assert!(rect.is_intersect_point(pt(0., 5.)));

    // points within rect
    assert!(rect.is_intersect_point(pt(2., -2.)));
    assert!(rect.is_intersect_point(pt(1.5235, -4.3463)));

    // outside of rect
    assert!(!rect.is_intersect_point(pt(-0., 5.1)));
    assert!(!rect.is_intersect_point(pt(2.6, -0.)));
    assert!(!rect.is_intersect_point(pt(6., -6.)));
    assert!(!rect.is_intersect_point(pt(234., -2432.)));
}

#[test]
fn rect_with_angle_rotation_point_intersect() {
    let rect = rect(10., 5., std::f32::consts::PI / 2.23423);

    assert!(rect.is_intersect_point(pt(0., 0.)));

    // points whose vertex magnitude are shorter than the rectangle's sides
    assert!(rect.is_intersect_point(pt(-2., -2.)));
    assert!(rect.is_intersect_point(pt(2., 2.)));
    assert!(rect.is_intersect_point(pt(2., -2.)));
    assert!(rect.is_intersect_point(pt(-2., 2.)));

    // before-rotate vertices aren't in the rectangle anymore
    assert!(!rect.is_intersect_point(pt(-2.5, -5.)));
    assert!(!rect.is_intersect_point(pt(2.5, 5.)));
    assert!(!rect.is_intersect_point(pt(2.5, -5.)));
    assert!(!rect.is_intersect_point(pt(-2.5, 5.)));
}

#[test]
fn point_test_tolerance() {
    // a 10 by 10 square: at scale 2, AB = (20000, 0) and AB·AB = 4·10^8;
    // the point 0.001 beyond the right edge gives AB·AM = 400040000
    let rect = rect(10., 10., 0.);
    assert!(!rect.is_intersect_point(pt(5.001, 0.)));
    assert!(!rect.is_intersect_point_with_epsilon(pt(5.001, 0.), 39999));
    assert!(rect.is_intersect_point_with_epsilon(pt(5.001, 0.), 40000));
}

#[test]
fn rotation_from_half_angle_tangent() {
    let r = Rotation::from_half_angle_tangent(1, 2);
    assert_eq!((r.cos, r.sin, r.hyp), (3, 4, 5));
    let half_turn = Rotation::from_half_angle_tangent(1, 0);
    assert_eq!((half_turn.cos, half_turn.sin, half_turn.hyp), (-1, 0, 1));
    let id = Rotation::identity();
    assert_eq!((id.cos, id.sin, id.hyp), (1, 0, 1));
}

#[test]
fn vertices_clockwise_from_top_left() {
    let r = Rectangle { center: ipt(10, 20), length: 4, width: 2, rotation: Rotation::identity() };
    assert_eq!(r.get_vertices(), [ipt(-2, -4), ipt(2, -4), ipt(2, 4), ipt(-2, 4)]);
    // at scale 2: (2·10 ± 2, 2·20 ± 4)
    assert_eq!(r.vertex_scale(), 2);
    assert_eq!(r.get_transformed_vertices(), [ipt(18, 36), ipt(22, 36), ipt(22, 44), ipt(18, 44)]);

    // a quarter turn (cos 0, sin 1): (x, y) becomes (−y, x)
    let q = Rectangle { center: ipt(0, 0), length: 4, width: 2, rotation: Rotation::from_half_angle_tangent(1, 1) };
    assert_eq!(q.vertex_scale(), 4);
    assert_eq!(q.get_transformed_vertices(), [ipt(8, -4), ipt(8, 4), ipt(-8, 4), ipt(-8, -4)]);
}

#[test]
fn circle_meets_rectangle() {
    let body = Rectangle { center: pt(5., 5.), length: 1000, width: 1000, rotation: Rotation::identity() };
    // center inside
    assert!(is_intersect(&body, &Circle { center: pt(5.2, 4.9), radius: 1 }));
    // meets an edge
    assert!(is_intersect(&body, &Circle { center: pt(3., 5.), radius: 1600 }));
    // far away
    assert!(!is_intersect(&body, &Circle { center: pt(0., 0.), radius: 1000 }));
    // edges count as infinite lines: the line y = 5.5 passes within 1 of
    // (50, 5), far from the body itself
    assert!(is_intersect(&body, &Circle { center: pt(50., 5.), radius: 1000 }));
}
