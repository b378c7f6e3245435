use scanline::geometry::{f32_eq, Point};
use scanline::path::{
    CubicBezier, FillRule, Line, Path, PathCommand, PathSegment, QuadraticBezier, SubPath,
};

fn pt(x: f32, y: f32) -> Point {
    Point { x: x.to_bits(), y: y.to_bits() }
}

fn same_bits(a: Point, b: Point) -> bool {
    a.x == b.x && a.y == b.y
}

#[test]
fn new_path_is_empty_nonzero() {
    let p = Path::new();
    assert!(p.commands.is_empty());
    assert_eq!(p.fill_rule, FillRule::NonZero);
}

#[test]
fn set_fill_rule_keeps_commands() {
    let mut p = Path::new();
    p.move_to(pt(1.0, 2.0));
    p.set_fill_rule(FillRule::EvenOdd);
    assert_eq!(p.fill_rule, FillRule::EvenOdd);
    assert_eq!(p.commands, vec![PathCommand::MoveTo(pt(1.0, 2.0))]);
}

#[test]
fn builders_append_in_order() {
    let mut p = Path::new();
    p.move_to(pt(0.0, 0.0))
        .line_to(pt(1.0, 0.0))
        .quad_to(pt(2.0, 2.0), pt(2.0, 0.0))
        .cubic_to(pt(0.0, 3.0), pt(1.0, 4.0), pt(0.5, 4.0))
        .close();
    assert_eq!(
        p.commands,
        vec![
            PathCommand::MoveTo(pt(0.0, 0.0)),
            PathCommand::LineTo(pt(1.0, 0.0)),
            PathCommand::QuadTo(pt(2.0, 2.0), pt(2.0, 0.0)),
            PathCommand::CubicTo(pt(0.0, 3.0), pt(1.0, 4.0), pt(0.5, 4.0)),
            PathCommand::Close,
        ]
    );
}

fn demo_path() -> Path {
    let mut path = Path::new();
    path.move_to(pt(50.0, 0.0))
        .line_to(pt(30.0, 330.0))
        .line_to(pt(100.0, 300.0))
        .quad_to(pt(50.0, 0.0), pt(100.0, 0.0))
        .close();
    path.move_to(pt(250.0, 0.0))
        .quad_to(pt(300.0, 300.0), pt(300.0, 0.0))
        .line_to(pt(230.0, 330.0))
        .close();
    path
}

#[test]
fn subpaths_of_demo_path() {
    let path = demo_path();
    let mut it = path.break_into_subpath();
    let first = it.next().unwrap();
    assert_eq!(
        first.segments,
        vec![
            PathSegment::Line(pt(50.0, 0.0), pt(30.0, 330.0)),
            PathSegment::Line(pt(30.0, 330.0), pt(100.0, 300.0)),
            PathSegment::Quadratic(QuadraticBezier {
                start: pt(100.0, 300.0),
                control: pt(100.0, 0.0),
                end: pt(50.0, 0.0),
            }),
        ]
    );
    let second = it.next().unwrap();
    assert_eq!(
        second.segments,
        vec![
            PathSegment::Quadratic(QuadraticBezier {
                start: pt(250.0, 0.0),
                control: pt(300.0, 0.0),
                end: pt(300.0, 300.0),
            }),
            PathSegment::Line(pt(300.0, 300.0), pt(230.0, 330.0)),
            PathSegment::Line(pt(230.0, 330.0), pt(250.0, 0.0)),
        ]
    );
    assert!(it.next().is_none());
    assert!(it.next().is_none());
}

#[test]
fn open_tail_yields_nothing() {
    let mut path = Path::new();
    path.move_to(pt(0.0, 0.0)).line_to(pt(1.0, 1.0));
    let mut it = path.break_into_subpath();
    assert!(it.next().is_none());
}

#[test]
fn signed_zero_counts_as_closed() {
    let mut path = Path::new();
    path.move_to(pt(0.0, 0.0))
        .line_to(pt(5.0, 0.0))
        .line_to(pt(-0.0, 0.0))
        .close();
    let sub = path.break_into_subpath().next().unwrap();
    assert_eq!(sub.segments.len(), 2);
}

#[test]
fn nan_start_gets_closing_line() {
    let mut path = Path::new();
    path.move_to(pt(f32::NAN, 0.0)).close();
    let sub = path.break_into_subpath().next().unwrap();
    assert_eq!(sub.segments.len(), 1);
    match sub.segments[0] {
        PathSegment::Line(a, b) => {
            assert!(a.x == f32::NAN.to_bits() && b.x == f32::NAN.to_bits());
        }
        _ => panic!("expected a line"),
    }
}

#[test]
fn later_move_to_restarts_subpath() {
    let mut path = Path::new();
    path.move_to(pt(0.0, 0.0))
        .line_to(pt(9.0, 9.0))
        .move_to(pt(1.0, 1.0))
        .line_to(pt(2.0, 1.0))
        .close();
    let sub = path.break_into_subpath().next().unwrap();
    assert_eq!(
        sub.segments,
        vec![
            PathSegment::Line(pt(1.0, 1.0), pt(2.0, 1.0)),
            PathSegment::Line(pt(2.0, 1.0), pt(1.0, 1.0)),
        ]
    );
}

#[test]
fn move_then_close_is_empty() {
    let mut path = Path::new();
    path.move_to(pt(3.0, 3.0)).close();
    let sub = path.break_into_subpath().next().unwrap();
    assert!(sub.segments.is_empty());
}

#[test]
fn cubic_segment_from_pen() {
    let mut path = Path::new();
    path.move_to(pt(0.0, 0.0))
        .cubic_to(pt(3.0, 0.0), pt(1.0, 1.0), pt(2.0, 1.0))
        .close();
    let sub = path.break_into_subpath().next().unwrap();
    assert_eq!(
        sub.segments,
        vec![
            PathSegment::Cubic(CubicBezier {
                start: pt(0.0, 0.0),
                control1: pt(1.0, 1.0),
                control2: pt(2.0, 1.0),
                end: pt(3.0, 0.0),
            }),
            PathSegment::Line(pt(3.0, 0.0), pt(0.0, 0.0)),
        ]
    );
}

#[test]
fn segment_start_and_end() {
    let q = PathSegment::Quadratic(QuadraticBezier {
        start: pt(1.0, 2.0),
        control: pt(3.0, 4.0),
        end: pt(5.0, 6.0),
    });
    assert!(same_bits(q.start(), pt(1.0, 2.0)));
    assert!(same_bits(q.end(), pt(5.0, 6.0)));
    let l = PathSegment::Line(pt(7.0, 8.0), pt(9.0, 10.0));
    assert!(same_bits(l.start(), pt(7.0, 8.0)));
    assert!(same_bits(l.end(), pt(9.0, 10.0)));
}

#[test]
fn reverse_flips_order_and_direction() {
    let mut sub = SubPath {
        segments: vec![
            PathSegment::Line(pt(0.0, 0.0), pt(1.0, 0.0)),
            PathSegment::Quadratic(QuadraticBezier {
                start: pt(1.0, 0.0),
                control: pt(1.0, 1.0),
                end: pt(0.0, 1.0),
            }),
            PathSegment::Cubic(CubicBezier {
                start: pt(0.0, 1.0),
                control1: pt(-1.0, 1.0),
                control2: pt(-1.0, 0.0),
                end: pt(0.0, 0.0),
            }),
        ],
    };
    let before = sub.clone();
    sub.reverse();
    assert_eq!(
        sub.segments,
        vec![
            PathSegment::Cubic(CubicBezier {
                start: pt(0.0, 0.0),
                control1: pt(-1.0, 0.0),
                control2: pt(-1.0, 1.0),
                end: pt(0.0, 1.0),
            }),
            PathSegment::Quadratic(QuadraticBezier {
                start: pt(0.0, 1.0),
                control: pt(1.0, 1.0),
                end: pt(1.0, 0.0),
            }),
            PathSegment::Line(pt(1.0, 0.0), pt(0.0, 0.0)),
        ]
    );
    sub.reverse();
    assert_eq!(sub, before);
}

#[test]
fn write_lines_passes_lines_and_joins_polylines() {
    let sub = SubPath {
        segments: vec![
            PathSegment::Line(pt(0.0, 0.0), pt(4.0, 0.0)),
            PathSegment::Quadratic(QuadraticBezier {
                start: pt(4.0, 0.0),
                control: pt(4.0, 4.0),
                end: pt(0.0, 4.0),
            }),
        ],
    };
    let curves = vec![
        vec![],
        vec![pt(4.0, 0.0), pt(3.0, 3.0), pt(0.0, 4.0)],
    ];
    let mut out = vec![Line(pt(9.0, 9.0), pt(8.0, 8.0))];
    sub.write_lines(&curves, &mut out);
    assert_eq!(
        out,
        vec![
            Line(pt(9.0, 9.0), pt(8.0, 8.0)),
            Line(pt(0.0, 0.0), pt(4.0, 0.0)),
            Line(pt(4.0, 0.0), pt(3.0, 3.0)),
            Line(pt(3.0, 3.0), pt(0.0, 4.0)),
        ]
    );
}

#[test]
fn write_lines_single_point_curve_adds_nothing() {
    let sub = SubPath {
        segments: vec![PathSegment::Quadratic(QuadraticBezier {
            start: pt(1.0, 1.0),
            control: pt(1.0, 1.0),
            end: pt(1.0, 1.0),
        })],
    };
    let mut out = vec![];
    sub.write_lines(&vec![vec![pt(1.0, 1.0)]], &mut out);
    assert!(out.is_empty());
}

#[test]
fn float_equality_of_bits() {
    assert!(f32_eq(1.5f32.to_bits(), 1.5f32.to_bits()));
    assert!(f32_eq(0.0f32.to_bits(), (-0.0f32).to_bits()));
    assert!(!f32_eq(f32::NAN.to_bits(), f32::NAN.to_bits()));
    assert!(!f32_eq(1.0f32.to_bits(), 2.0f32.to_bits()));
    assert!(f32_eq(f32::INFINITY.to_bits(), f32::INFINITY.to_bits()));
    assert!(pt(1.0, 2.0) == pt(1.0, 2.0));
    assert!(pt(0.0, 2.0) == pt(-0.0, 2.0));
    assert!(pt(f32::NAN, 2.0) != pt(f32::NAN, 2.0));
}

fn polyline_through_controls(segment: PathSegment) -> Vec<Point> {
    match segment {
        PathSegment::Line(a, b) => vec![a, b],
        PathSegment::Quadratic(q) => vec![q.start, q.control, q.end],
        PathSegment::Cubic(c) => vec![c.start, c.control1, c.control2, c.end],
    }
}

#[test]
fn break_into_lines_of_demo_path() {
    let path = demo_path();
    assert!(path.is_well_formed());
    let lines = path.break_into_lines(polyline_through_controls);
    assert_eq!(
        lines,
        vec![
            Line(pt(50.0, 0.0), pt(30.0, 330.0)),
            Line(pt(30.0, 330.0), pt(100.0, 300.0)),
            Line(pt(100.0, 300.0), pt(100.0, 0.0)),
            Line(pt(100.0, 0.0), pt(50.0, 0.0)),
            Line(pt(250.0, 0.0), pt(300.0, 0.0)),
            Line(pt(300.0, 0.0), pt(300.0, 300.0)),
            Line(pt(300.0, 300.0), pt(230.0, 330.0)),
            Line(pt(230.0, 330.0), pt(250.0, 0.0)),
        ]
    );
    // each sub-path's lines close up: the vertical travel sums to zero
    let total: f32 = lines.iter().map(|l| f32::from_bits(l.1.y) - f32::from_bits(l.0.y)).sum();
    assert_eq!(total, 0.0);
}

#[test]
fn break_into_lines_skips_open_tail() {
    let mut path = Path::new();
    path.move_to(pt(0.0, 0.0)).line_to(pt(1.0, 0.0)).line_to(pt(0.0, 1.0)).close();
    path.move_to(pt(5.0, 5.0)).line_to(pt(6.0, 6.0));
    let lines = path.break_into_lines(polyline_through_controls);
    assert_eq!(lines.len(), 3);
}

#[test]
fn well_formed_paths() {
    let mut p = Path::new();
    assert!(p.is_well_formed());
    p.line_to(pt(1.0, 1.0));
    assert!(!p.is_well_formed());
    let mut q = Path::new();
    q.move_to(pt(0.0, 0.0)).close().line_to(pt(1.0, 1.0));
    assert!(!q.is_well_formed());
    let mut r = Path::new();
    r.move_to(pt(0.0, 0.0)).close().move_to(pt(1.0, 1.0)).close();
    assert!(r.is_well_formed());
}

#[test]
fn paths_compare_as_floats() {
    let mut a = Path::new();
    a.move_to(pt(0.0, 1.0));
    let mut b = Path::new();
    b.move_to(pt(-0.0, 1.0));
    assert_eq!(a, b);
    let d = Point::default();
    assert!(d.x == 0 && d.y == 0);
}

#[test]
fn point_order_matches_float_pairs() {
    let values = [
        f32::NEG_INFINITY,
        -3.5,
        -1.0,
        -f32::MIN_POSITIVE,
        -0.0,
        0.0,
        1e-45,
        1.0,
        2.5,
        f32::INFINITY,
        f32::NAN,
    ];
    for &ax in &values {
        for &bx in &values {
            assert_eq!(scanline::geometry::f32_partial_cmp(ax.to_bits(), bx.to_bits()), ax.partial_cmp(&bx));
            for &ay in &[-1.0f32, 0.0, 2.0] {
                for &by in &[-1.0f32, -0.0, 2.0] {
                    assert_eq!(
                        pt(ax, ay).partial_cmp(&pt(bx, by)),
                        (ax, ay).partial_cmp(&(bx, by))
                    );
                }
            }
        }
    }
}
