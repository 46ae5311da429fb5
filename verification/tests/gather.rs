use vector_graphics::gather::{fill_outlines, hairline_polylines, span_outlines};
use vector_graphics::path::{Path, PathElement};

type P = (i32, i32);

/// Lines become their two end points; curves their control and end points;
/// `MoveTo` adds nothing. Points are shifted by (10, 20), as a transform
/// would move them.
fn flatten(current: P, e: PathElement<P>) -> (Vec<P>, P) {
    let t = |p: P| (p.0 + 10, p.1 + 20);
    match e {
        PathElement::MoveTo(p) => (vec![], t(p)),
        PathElement::LineTo(p) => (vec![current, t(p)], t(p)),
        PathElement::QuadTo(c, p) => (vec![t(c), t(p)], t(p)),
        PathElement::CurveTo(c1, c2, p) => (vec![t(c1), t(c2), t(p)], t(p)),
        PathElement::Close => (vec![], current),
    }
}

#[test]
fn fill_keeps_closed_subpaths_with_three_points() {
    let mut p: Path<P> = Path::new();
    p.move_to((0, 0));
    p.line_to((1, 0));
    p.quad_to((2, 0), (2, 2));
    p.close();
    // Commands after `Close` in the same subpath are skipped.
    p.line_to((9, 9));
    // Closed, but with two points only.
    p.move_to((5, 5));
    p.line_to((6, 6));
    p.close();
    // Never closed.
    p.move_to((7, 7));
    p.line_to((8, 8));
    p.line_to((8, 9));
    let (points, runs) = fill_outlines(&p, flatten);
    assert_eq!(points, vec![(10, 20), (11, 20), (12, 20), (12, 22)]);
    assert_eq!(runs, vec![4]);
}

#[test]
fn fill_gathers_several_runs_in_order() {
    let mut p: Path<P> = Path::new();
    p.move_to((0, 0));
    p.curve_to((1, 0), (1, 1), (0, 1));
    p.close();
    p.move_to((3, 3));
    p.line_to((4, 3));
    p.line_to((4, 4));
    p.close();
    let (points, runs) = fill_outlines(&p, flatten);
    assert_eq!(runs, vec![3, 4]);
    assert_eq!(
        points,
        vec![(11, 20), (11, 21), (10, 21), (13, 23), (14, 23), (14, 23), (14, 24)]
    );
    let empty: Path<P> = Path::new();
    assert_eq!(fill_outlines(&empty, flatten), (vec![], vec![]));
}

#[test]
fn hairline_gathers_one_polyline_per_subpath() {
    let mut p: Path<P> = Path::new();
    p.move_to((0, 0));
    p.line_to((2, 0));
    p.close();
    // `Close` does not move the current point.
    p.line_to((2, 2));
    // A subpath of its `MoveTo` alone gives no polyline.
    p.move_to((5, 5));
    p.move_to((6, 6));
    p.quad_to((7, 6), (7, 7));
    let lines = hairline_polylines(&p, flatten);
    assert_eq!(
        lines,
        vec![
            vec![(10, 20), (12, 20), (10, 20), (12, 20), (12, 22)],
            vec![(17, 26), (17, 27)],
        ]
    );
    let mut only_move: Path<P> = Path::new();
    only_move.move_to((1, 1));
    assert!(hairline_polylines(&only_move, flatten).is_empty());
}

#[test]
fn span_gathering_keeps_open_subpaths_and_marks_closed_ones() {
    let mut p: Path<P> = Path::new();
    p.move_to((0, 0));
    p.line_to((1, 0));
    p.close();
    p.line_to((5, 5));
    p.move_to((2, 2));
    p.line_to((3, 3));
    p.move_to((4, 4));
    p.close();
    let (points, runs) = span_outlines(&p, flatten);
    assert_eq!(points, vec![(10, 20), (11, 20), (12, 22), (13, 23)]);
    // The open subpath keeps its points but has no run; the subpath closed
    // before it gave a point has none either.
    assert_eq!(runs, vec![(0, 1)]);
}
