//! Path segments and their canonicalization.
//!
//! A path is a sequence of absolute-coordinate drawing commands. The
//! canonicalizer replaces commands with shorter equivalent ones (a line that
//! runs along an axis becomes a horizontal or vertical line, a curve whose
//! control points lie on its chord becomes a line, a curve whose first control
//! point is the reflection of the previous one becomes a smooth curve) until no
//! rule applies any more.

use vstd::prelude::*;
use crate::fuzzy::{
    approx_eq, approx_ge, approx_le, approx_between, fuzzy_eq, fuzzy_ge, fuzzy_le,
    fuzzy_between, EPSILON,
};

verus! {

/// One drawing command, with absolute fixed-point operands.
#[derive(Clone, Copy, Debug, PartialEq, Eq, Structural)]
pub enum Segment {
    MoveTo { x: i32, y: i32 },
    LineTo { x: i32, y: i32 },
    HorizontalLineTo { x: i32 },
    VerticalLineTo { y: i32 },
    CurveTo { x1: i32, y1: i32, x2: i32, y2: i32, x: i32, y: i32 },
    SmoothCurveTo { x2: i32, y2: i32, x: i32, y: i32 },
    Quadratic { x1: i32, y1: i32, x: i32, y: i32 },
    SmoothQuadratic { x: i32, y: i32 },
    ClosePath,
}

/// A path: its segments in drawing order.
#[derive(Clone, Debug)]
pub struct Path {
    pub d: Vec<Segment>,
}

/// The point where the subpath that is open after segment `i` started: the
/// operands of the last move at or before `i`, or the origin.
pub open spec fn subpath_start(s: Seq<Segment>, i: int) -> (int, int)
    decreases i + 1,
{
    if i < 0 || i >= s.len() {
        (0, 0)
    } else {
        match s[i] {
            Segment::MoveTo { x, y } => (x as int, y as int),
            _ => subpath_start(s, i - 1),
        }
    }
}

/// The absolute point where segment `i` ends (the origin before the first).
pub open spec fn end_point(s: Seq<Segment>, i: int) -> (int, int)
    decreases i + 1,
{
    if i < 0 || i >= s.len() {
        (0, 0)
    } else {
        match s[i] {
            Segment::MoveTo { x, y } => (x as int, y as int),
            Segment::LineTo { x, y } => (x as int, y as int),
            Segment::HorizontalLineTo { x } => (x as int, end_point(s, i - 1).1),
            Segment::VerticalLineTo { y } => (end_point(s, i - 1).0, y as int),
            Segment::CurveTo { x, y, .. } => (x as int, y as int),
            Segment::SmoothCurveTo { x, y, .. } => (x as int, y as int),
            Segment::Quadratic { x, y, .. } => (x as int, y as int),
            Segment::SmoothQuadratic { x, y } => (x as int, y as int),
            Segment::ClosePath => subpath_start(s, i - 1),
        }
    }
}

/// `(x, y)` lies on the segment from `(x1, y1)` to `(x2, y2)`, up to the
/// tolerance: both coordinates lie between the ends', and the point is on
/// the line through them. For a vertical segment that means the abscissa
/// matches both ends'; otherwise the vertical distance to the line must be
/// within the tolerance.
pub open spec fn on_segment(x1: int, y1: int, x2: int, y2: int, x: int, y: int) -> bool {
    if approx_eq(x1, x2) {
        approx_eq(x, x1) && approx_eq(x, x2) && approx_between(y, y1, y2)
    } else {
        let dist = (y - y1) * (x2 - x1) - (y2 - y1) * (x - x1);
        let run = if x2 >= x1 { x2 - x1 } else { x1 - x2 };
        -EPSILON * run <= dist <= EPSILON * run && approx_between(x, x1, x2) && approx_between(
            y,
            y1,
            y2,
        )
    }
}

/// A cubic curve from `(px, py)` that runs straight down the vertical line
/// through its start, with no control point outside the span.
pub open spec fn is_vertical_curve(
    px: int, py: int, x1: int, y1: int, x2: int, y2: int, x: int, y: int,
) -> bool {
    approx_eq(px, x) && approx_eq(x1, x2) && approx_eq(x1, x) && approx_ge(y1, py)
        && approx_le(y2, y)
}

/// The horizontal counterpart of `is_vertical_curve`.
pub open spec fn is_horizontal_curve(
    px: int, py: int, x1: int, y1: int, x2: int, y2: int, x: int, y: int,
) -> bool {
    approx_eq(py, y) && approx_eq(y1, y2) && approx_eq(y1, y) && approx_ge(x1, px)
        && approx_le(x2, x)
}

/// The point that a smooth curve after `prev` takes as its first control
/// point: the reflection of `prev`'s second control point through its end.
/// Defined only when `prev` is a cubic curve.
pub open spec fn reflected_control(prev: Segment) -> Option<(int, int)> {
    match prev {
        Segment::CurveTo { x2, y2, x, y, .. } => Some((2 * x - x2, 2 * y - y2)),
        Segment::SmoothCurveTo { x2, y2, x, y } => Some((2 * x - x2, 2 * y - y2)),
        _ => None,
    }
}

/// The shorter segment that may replace `cur`, given the segment `prev` before
/// it and the point `(px, py)` where `prev` ends; `None` where no rule applies.
pub open spec fn rewrite(prev: Segment, px: int, py: int, cur: Segment) -> Option<Segment> {
    match cur {
        Segment::LineTo { x, y } => {
            if approx_eq(px, x as int) && !approx_eq(py, y as int) {
                Some(Segment::VerticalLineTo { y })
            } else if !approx_eq(px, x as int) && approx_eq(py, y as int) {
                Some(Segment::HorizontalLineTo { x })
            } else {
                None
            }
        },
        Segment::CurveTo { x1, y1, x2, y2, x, y } => {
            if is_vertical_curve(px, py, x1 as int, y1 as int, x2 as int, y2 as int, x as int, y as int) {
                Some(Segment::VerticalLineTo { y })
            } else if is_horizontal_curve(px, py, x1 as int, y1 as int, x2 as int, y2 as int, x as int, y as int) {
                Some(Segment::HorizontalLineTo { x })
            } else if on_segment(px, py, x as int, y as int, x1 as int, y1 as int)
                && on_segment(px, py, x as int, y as int, x2 as int, y2 as int) {
                Some(Segment::LineTo { x, y })
            } else {
                match reflected_control(prev) {
                    Some(c) => if approx_eq(x1 as int, c.0) && approx_eq(y1 as int, c.1) {
                        Some(Segment::SmoothCurveTo { x2, y2, x, y })
                    } else {
                        None
                    },
                    None => None,
                }
            }
        },
        _ => None,
    }
}

/// The segments after one scan that has visited indices `1 .. n`, each
/// rewritten against its (possibly already rewritten) predecessor.
pub open spec fn scan_upto(s: Seq<Segment>, n: int) -> Seq<Segment>
    decreases n,
{
    if n <= 1 {
        s
    } else {
        let t = scan_upto(s, n - 1);
        let i = n - 1;
        let e = end_point(t, i - 1);
        match rewrite(t[i - 1], e.0, e.1, t[i]) {
            Some(g) => t.update(i, g),
            None => t,
        }
    }
}

/// The segments after one full scan.
pub open spec fn scan(s: Seq<Segment>) -> Seq<Segment> {
    scan_upto(s, s.len() as int)
}

/// How far a segment is from the shortest forms: every rewrite lowers it.
pub open spec fn rank(g: Segment) -> nat {
    match g {
        Segment::CurveTo { .. } => 3,
        Segment::SmoothCurveTo { .. } => 2,
        Segment::LineTo { .. } => 1,
        _ => 0,
    }
}

pub open spec fn rank_sum(s: Seq<Segment>) -> nat
    decreases s.len(),
{
    if s.len() == 0 {
        0
    } else {
        rank_sum(s.drop_last()) + rank(s.last())
    }
}

/// The canonical form of a path: a lone segment draws nothing and goes;
/// otherwise full scans repeat until one changes nothing.
pub open spec fn converted(s: Seq<Segment>) -> Seq<Segment>
    decreases rank_sum(s),
    via converted_decreases
{
    if s.len() == 1 {
        Seq::empty()
    } else if scan(s) == s {
        s
    } else {
        converted(scan(s))
    }
}

#[via_fn]
proof fn converted_decreases(s: Seq<Segment>) {
    lemma_scan_lowers_rank(s, s.len() as int);
}

proof fn lemma_rank_sum_update(s: Seq<Segment>, i: int, g: Segment)
    requires
        0 <= i < s.len(),
    ensures
        rank_sum(s.update(i, g)) + rank(s[i]) == rank_sum(s) + rank(g),
    decreases s.len(),
{
    let t = s.update(i, g);
    if i == s.len() - 1 {
        assert(t.drop_last() =~= s.drop_last());
    } else {
        lemma_rank_sum_update(s.drop_last(), i, g);
        assert(t.drop_last() =~= s.drop_last().update(i, g));
    }
}

proof fn lemma_rewrite_lowers_rank(prev: Segment, px: int, py: int, cur: Segment)
    ensures
        rewrite(prev, px, py, cur) matches Some(g) ==> rank(g) < rank(cur),
{
}

proof fn lemma_scan_upto_len(s: Seq<Segment>, n: int)
    requires
        n <= s.len(),
    ensures
        scan_upto(s, n).len() == s.len(),
    decreases n,
{
    if n > 1 {
        lemma_scan_upto_len(s, n - 1);
    }
}

/// A scan that changes anything lowers the rank sum.
proof fn lemma_scan_lowers_rank(s: Seq<Segment>, n: int)
    requires
        n <= s.len(),
    ensures
        scan_upto(s, n) == s || rank_sum(scan_upto(s, n)) < rank_sum(s),
    decreases n,
{
    if n > 1 {
        lemma_scan_lowers_rank(s, n - 1);
        lemma_scan_upto_len(s, n - 1);
        let t = scan_upto(s, n - 1);
        let i = n - 1;
        let e = end_point(t, i - 1);
        lemma_rewrite_lowers_rank(t[i - 1], e.0, e.1, t[i]);
        if let Some(g) = rewrite(t[i - 1], e.0, e.1, t[i]) {
            lemma_rank_sum_update(t, i, g);
        }
    }
}

/// End points and subpath starts depend on the segments up to that index only.
proof fn lemma_prefix_points(s1: Seq<Segment>, s2: Seq<Segment>, i: int)
    requires
        i < s1.len(),
        i < s2.len(),
        forall|k: int| 0 <= k <= i ==> s1[k] == s2[k],
    ensures
        end_point(s1, i) == end_point(s2, i),
        subpath_start(s1, i) == subpath_start(s2, i),
    decreases i + 1,
{
    if i >= 0 {
        lemma_prefix_points(s1, s2, i - 1);
    }
}

/// The product of two values of magnitude at most `2^34`.
fn mul_small(a: i128, b: i128) -> (r: i128)
    requires
        -0x4_0000_0000 <= a <= 0x4_0000_0000,
        -0x4_0000_0000 <= b <= 0x4_0000_0000,
    ensures
        r == a * b,
        -0x10_0000_0000_0000_0000 <= r <= 0x10_0000_0000_0000_0000,
{
    proof {
        assert(-0x10_0000_0000_0000_0000 <= a * b <= 0x10_0000_0000_0000_0000) by (nonlinear_arith)
            requires
                -0x4_0000_0000 <= a <= 0x4_0000_0000,
                -0x4_0000_0000 <= b <= 0x4_0000_0000,
        ;
    }
    a * b
}

/// Whether `(x, y)` lies on the segment from `(x1, y1)` to `(x2, y2)`.
pub fn is_point_on_line(x1: i32, y1: i32, x2: i32, y2: i32, x: i32, y: i32) -> (r: bool)
    ensures
        r == on_segment(x1 as int, y1 as int, x2 as int, y2 as int, x as int, y as int),
{
    if fuzzy_eq(x1, x2) {
        fuzzy_eq(x, x1) && fuzzy_eq(x, x2) && fuzzy_between(y, y1, y2)
    } else {
        let dist: i128 = mul_small(y as i128 - y1 as i128, x2 as i128 - x1 as i128)
            - mul_small(y2 as i128 - y1 as i128, x as i128 - x1 as i128);
        let run: i128 = if x2 >= x1 {
            x2 as i128 - x1 as i128
        } else {
            x1 as i128 - x2 as i128
        };
        let tol: i128 = mul_small(EPSILON as i128, run);
        -tol <= dist && dist <= tol && fuzzy_between(x, x1, x2) && fuzzy_between(y, y1, y2)
    }
}

/// The shorter replacement of `cur`, if any, given its predecessor `prev`
/// ending at `(px, py)`.
pub fn rewrite_segment(prev: Segment, px: i32, py: i32, cur: Segment) -> (r: Option<Segment>)
    ensures
        r == rewrite(prev, px as int, py as int, cur),
{
    match cur {
        Segment::LineTo { x, y } => {
            if fuzzy_eq(px, x) && !fuzzy_eq(py, y) {
                Some(Segment::VerticalLineTo { y })
            } else if !fuzzy_eq(px, x) && fuzzy_eq(py, y) {
                Some(Segment::HorizontalLineTo { x })
            } else {
                None
            }
        },
        Segment::CurveTo { x1, y1, x2, y2, x, y } => {
            if fuzzy_eq(px, x) && fuzzy_eq(x1, x2) && fuzzy_eq(x1, x) && fuzzy_ge(y1, py)
                && fuzzy_le(y2, y) {
                Some(Segment::VerticalLineTo { y })
            } else if fuzzy_eq(py, y) && fuzzy_eq(y1, y2) && fuzzy_eq(y1, y) && fuzzy_ge(x1, px)
                && fuzzy_le(x2, x) {
                Some(Segment::HorizontalLineTo { x })
            } else if is_point_on_line(px, py, x, y, x1, y1) && is_point_on_line(
                px,
                py,
                x,
                y,
                x2,
                y2,
            ) {
                Some(Segment::LineTo { x, y })
            } else {
                let reflected: Option<(i64, i64)> = match prev {
                    Segment::CurveTo { x2: qx2, y2: qy2, x: qx, y: qy, .. } => Some(
                        (2 * (qx as i64) - qx2 as i64, 2 * (qy as i64) - qy2 as i64),
                    ),
                    Segment::SmoothCurveTo { x2: qx2, y2: qy2, x: qx, y: qy } => Some(
                        (2 * (qx as i64) - qx2 as i64, 2 * (qy as i64) - qy2 as i64),
                    ),
                    _ => None,
                };
                match reflected {
                    Some((cx, cy)) => {
                        let dx: i64 = x1 as i64 - cx;
                        let dy: i64 = y1 as i64 - cy;
                        if -EPSILON <= dx && dx <= EPSILON && -EPSILON <= dy && dy <= EPSILON {
                            Some(Segment::SmoothCurveTo { x2, y2, x, y })
                        } else {
                            None
                        }
                    },
                    None => None,
                }
            }
        },
        _ => None,
    }
}

/// Where segment `g` ends, given where its predecessor ended and where the
/// open subpath started.
fn segment_end(g: Segment, px: i32, py: i32, sx: i32, sy: i32) -> (r: (i32, i32))
    ensures
        g matches Segment::HorizontalLineTo { x } ==> r == (x, py),
        g matches Segment::VerticalLineTo { y } ==> r == (px, y),
        g matches Segment::ClosePath ==> r == (sx, sy),
        g matches Segment::MoveTo { x, y } ==> r == (x, y),
        g matches Segment::LineTo { x, y } ==> r == (x, y),
        g matches Segment::CurveTo { x, y, .. } ==> r == (x, y),
        g matches Segment::SmoothCurveTo { x, y, .. } ==> r == (x, y),
        g matches Segment::Quadratic { x, y, .. } ==> r == (x, y),
        g matches Segment::SmoothQuadratic { x, y } ==> r == (x, y),
{
    match g {
        Segment::MoveTo { x, y } => (x, y),
        Segment::LineTo { x, y } => (x, y),
        Segment::HorizontalLineTo { x } => (x, py),
        Segment::VerticalLineTo { y } => (px, y),
        Segment::CurveTo { x, y, .. } => (x, y),
        Segment::SmoothCurveTo { x, y, .. } => (x, y),
        Segment::Quadratic { x, y, .. } => (x, y),
        Segment::SmoothQuadratic { x, y } => (x, y),
        Segment::ClosePath => (sx, sy),
    }
}

/// One full scan over the segments; returns whether anything was rewritten.
fn convert_segments_once(d: &mut Vec<Segment>) -> (changed: bool)
    ensures
        final(d)@ == scan(old(d)@),
        changed ==> rank_sum(final(d)@) < rank_sum(old(d)@),
        !changed ==> final(d)@ == old(d)@,
{
    let ghost s0 = d@;
    let n = d.len();
    if n < 2 {
        return false;
    }
    let (mut px, mut py) = segment_end(d[0], 0, 0, 0, 0);
    let (mut sx, mut sy): (i32, i32) = match d[0] {
        Segment::MoveTo { x, y } => (x, y),
        _ => (0, 0),
    };
    proof {
        reveal_with_fuel(end_point, 2);
        reveal_with_fuel(subpath_start, 2);
    }
    let mut changed = false;
    let mut i: usize = 1;
    while i < n
        invariant
            1 <= i <= n,
            n == d@.len(),
            n == s0.len(),
            d@ == scan_upto(s0, i as int),
            (px as int, py as int) == end_point(d@, i - 1),
            (sx as int, sy as int) == subpath_start(d@, i - 1),
            changed ==> rank_sum(d@) < rank_sum(s0),
            !changed ==> d@ == s0,
        decreases n - i,
    {
        let ghost t = d@;
        proof {
            lemma_rewrite_lowers_rank(t[i - 1], px as int, py as int, t[i as int]);
        }
        let r = rewrite_segment(d[i - 1], px, py, d[i]);
        if let Some(g) = r {
            proof {
                lemma_rank_sum_update(t, i as int, g);
            }
            d.set(i, g);
            changed = true;
        }
        proof {
            assert forall|k: int| 0 <= k <= i - 1 implies d@[k] == t[k] by {}
            lemma_prefix_points(d@, t, i - 1);
        }
        let g = d[i];
        let e = segment_end(g, px, py, sx, sy);
        px = e.0;
        py = e.1;
        if let Segment::MoveTo { x, y } = g {
            sx = x;
            sy = y;
        }
        i += 1;
    }
    proof {
        assert(d@ == scan(s0));
    }
    changed
}

/// Rewrites the path's segments into their canonical form: a path of one
/// segment becomes empty; otherwise full scans repeat until one changes nothing.
pub fn convert_segments(path: &mut Path)
    ensures
        final(path).d@ == converted(old(path).d@),
        old(path).d@.len() == 1 ==> final(path).d@.len() == 0,
{
    let ghost s0 = path.d@;
    if path.d.len() == 1 {
        path.d.clear();
        return;
    }
    loop
        invariant
            path.d@.len() != 1,
            converted(path.d@) == converted(s0),
        ensures
            path.d@ == converted(s0),
        decreases rank_sum(path.d@),
    {
        proof {
            lemma_scan_upto_len(path.d@, path.d@.len() as int);
        }
        let changed = convert_segments_once(&mut path.d);
        if !changed {
            break;
        }
    }
}

/// The canonical form is a fixed point: canonicalizing a path twice gives
/// the same segments as canonicalizing it once.
pub proof fn lemma_convert_segments_idempotent(s: Seq<Segment>)
    ensures
        converted(converted(s)) == converted(s),
    decreases rank_sum(s),
{
    if s.len() == 1 {
        let e = Seq::<Segment>::empty();
        assert(scan(e) == e);
        assert(converted(e) == e);
    } else if scan(s) == s {
    } else {
        lemma_scan_lowers_rank(s, s.len() as int);
        lemma_convert_segments_idempotent(scan(s));
    }
}

/// Whether a point lies on a segment does not depend on which end comes
/// first.
pub proof fn lemma_on_segment_symmetric(x1: int, y1: int, x2: int, y2: int, x: int, y: int)
    ensures
        on_segment(x1, y1, x2, y2, x, y) == on_segment(x2, y2, x1, y1, x, y),
{
    assert((y - y2) * (x1 - x2) - (y1 - y2) * (x - x2) == -((y - y1) * (x2 - x1) - (y2 - y1) * (
    x - x1))) by (nonlinear_arith);
}

/// A point on a segment lies within the segment's bounding box, up to the
/// tolerance.
pub proof fn lemma_on_segment_within_box(x1: int, y1: int, x2: int, y2: int, x: int, y: int)
    requires
        on_segment(x1, y1, x2, y2, x, y),
    ensures
        approx_between(x, x1, x2),
        approx_between(y, y1, y2),
{
}

} // verus!
