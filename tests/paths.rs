use svgcleaner::path::{convert_segments, is_point_on_line, rewrite_segment, Path, Segment};

const U: i32 = 1000;

fn m(x: i32, y: i32) -> Segment {
    Segment::MoveTo { x: x * U, y: y * U }
}

fn l(x: i32, y: i32) -> Segment {
    Segment::LineTo { x: x * U, y: y * U }
}

fn h(x: i32) -> Segment {
    Segment::HorizontalLineTo { x: x * U }
}

fn v(y: i32) -> Segment {
    Segment::VerticalLineTo { y: y * U }
}

fn c(x1: i32, y1: i32, x2: i32, y2: i32, x: i32, y: i32) -> Segment {
    Segment::CurveTo { x1: x1 * U, y1: y1 * U, x2: x2 * U, y2: y2 * U, x: x * U, y: y * U }
}

fn s(x2: i32, y2: i32, x: i32, y: i32) -> Segment {
    Segment::SmoothCurveTo { x2: x2 * U, y2: y2 * U, x: x * U, y: y * U }
}

fn run(d: Vec<Segment>) -> Vec<Segment> {
    let mut p = Path { d };
    convert_segments(&mut p);
    p.d
}

#[test]
fn conv_l() {
    assert_eq!(run(vec![m(10, 10), l(15, 10), l(15, 15)]), vec![m(10, 10), h(15), v(15)]);
}

#[test]
fn conv_cs_1() {
    let input = vec![m(10, 20), c(10, 10, 25, 10, 25, 20), c(25, 30, 40, 30, 40, 20)];
    let expected = vec![m(10, 20), c(10, 10, 25, 10, 25, 20), s(40, 30, 40, 20)];
    assert_eq!(run(input), expected);
}

#[test]
fn smooth_needs_a_curve_before() {
    let input = vec![
        m(10, 10),
        c(10, 10, 10, 20, 30, 40),
        c(20, 35, 40, 50, 60, 70),
        c(80, 90, 10, 20, 30, 40),
    ];
    let expected = vec![
        m(10, 10),
        c(10, 10, 10, 20, 30, 40),
        c(20, 35, 40, 50, 60, 70),
        s(10, 20, 30, 40),
    ];
    assert_eq!(run(input), expected);
}

#[test]
fn conv_cv_1() {
    assert_eq!(run(vec![m(10, 10), c(10, 15, 10, 20, 10, 40)]), vec![m(10, 10), v(40)]);
}

#[test]
fn conv_cv_2() {
    let input = vec![m(10, 10), c(10, 5, 10, 20, 10, 40)];
    assert_eq!(run(input.clone()), input);
}

#[test]
fn conv_cv_3() {
    assert_eq!(run(vec![m(10, 10), c(10, 10, 10, 40, 10, 40)]), vec![m(10, 10), v(40)]);
}

#[test]
fn conv_ch_1() {
    assert_eq!(run(vec![m(10, 10), c(15, 10, 25, 10, 40, 10)]), vec![m(10, 10), h(40)]);
}

#[test]
fn conv_ch_2() {
    let input = vec![m(10, 10), c(5, 10, 50, 10, 40, 10)];
    assert_eq!(run(input.clone()), input);
}

#[test]
fn conv_ch_3() {
    assert_eq!(run(vec![m(10, 10), c(10, 10, 40, 10, 40, 10)]), vec![m(10, 10), h(40)]);
}

#[test]
fn conv_cl_1() {
    assert_eq!(run(vec![m(10, 118), c(45, 83, 85, 43, 120, 8)]), vec![m(10, 118), l(120, 8)]);
}

#[test]
fn conv_cl_2() {
    let input = vec![
        Segment::MoveTo { x: 10000, y: 15000 },
        Segment::CurveTo { x1: 10000, y1: 15000, x2: 72500, y2: 10000, x: 72500, y: 55000 },
        Segment::CurveTo { x1: 72500, y1: 100000, x2: 135000, y2: 100000, x: 135000, y: 55000 },
        Segment::LineTo { x: 10000, y: 55000 },
    ];
    let expected = vec![
        Segment::MoveTo { x: 10000, y: 15000 },
        Segment::CurveTo { x1: 10000, y1: 15000, x2: 72500, y2: 10000, x: 72500, y: 55000 },
        Segment::SmoothCurveTo { x2: 135000, y2: 100000, x: 135000, y: 55000 },
        Segment::HorizontalLineTo { x: 10000 },
    ];
    assert_eq!(run(input), expected);
}

#[test]
fn curve_with_y1_outside_span_is_kept() {
    let input = vec![m(10, 10), c(10, 0, 10, 20, 10, 40)];
    assert_eq!(run(input.clone()), input);
}

#[test]
fn single_move_collapses() {
    assert_eq!(run(vec![m(10, 10)]), vec![]);
}

#[test]
fn empty_path_stays_empty() {
    assert_eq!(run(vec![]), vec![]);
}

#[test]
fn zero_length_line_is_kept() {
    let input = vec![m(10, 10), l(10, 10)];
    assert_eq!(run(input.clone()), input);
}

#[test]
fn lines_within_tolerance_snap_to_axis() {
    let input = vec![m(10, 10), Segment::LineTo { x: 10001, y: 20000 }];
    assert_eq!(run(input), vec![m(10, 10), v(20)]);
}

#[test]
fn canonicalizing_twice_changes_nothing() {
    let input = vec![
        m(10, 20),
        c(10, 10, 25, 10, 25, 20),
        c(25, 30, 40, 30, 40, 20),
        l(40, 50),
        l(60, 50),
        Segment::ClosePath,
        l(10, 50),
    ];
    let once = run(input);
    assert_eq!(run(once.clone()), once);
}

#[test]
fn close_path_returns_to_subpath_start() {
    let input = vec![m(10, 10), l(40, 40), Segment::ClosePath, l(10, 30)];
    assert_eq!(run(input), vec![m(10, 10), l(40, 40), Segment::ClosePath, v(30)]);
}

#[test]
fn point_on_line() {
    assert!(is_point_on_line(0, 0, 10000, 10000, 5000, 5000));
    assert!(!is_point_on_line(0, 0, 10000, 10000, 5000, 6000));
    assert!(!is_point_on_line(0, 0, 10000, 10000, 15000, 15000));
    assert!(is_point_on_line(0, 0, 0, 10000, 0, 3000));
    assert!(!is_point_on_line(0, 0, 0, 10000, 0, 13000));
}

#[test]
fn rewrite_of_one_segment() {
    assert_eq!(rewrite_segment(m(0, 0), 0, 0, l(0, 5)), Some(v(5)));
    assert_eq!(rewrite_segment(m(0, 0), 0, 0, l(5, 5)), None);
    assert_eq!(rewrite_segment(m(0, 0), 0, 0, h(5)), None);
}

#[test]
fn point_past_end_of_steep_chord_is_rejected() {
    assert!(!is_point_on_line(0, 0, 2, 1_000_000, 3, 1_500_000));
    let input = vec![
        Segment::MoveTo { x: 0, y: 0 },
        Segment::CurveTo { x1: 3, y1: 1_500_000, x2: 1, y2: 500_000, x: 2, y: 1_000_000 },
    ];
    assert_eq!(run(input.clone()), input);
}

#[test]
fn point_on_line_ignores_end_order() {
    assert!(!is_point_on_line(0, 0, 1, 10, -1, 5));
    assert!(!is_point_on_line(1, 10, 0, 0, -1, 5));
    assert_eq!(
        is_point_on_line(0, 0, 10000, 10000, 5000, 5000),
        is_point_on_line(10000, 10000, 0, 0, 5000, 5000)
    );
}
