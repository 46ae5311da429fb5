use vector_graphics::path::{promote_path, transform_path, Path, PathElement, PathSegment};

type P = (i32, i32);

fn sample() -> Path<P> {
    let mut p = Path::new();
    p.move_to((0, 0));
    p.line_to((1, 0));
    p.quad_to((2, 0), (2, 1));
    p.close();
    p.move_to((5, 5));
    p.curve_to((6, 5), (7, 6), (7, 7));
    p
}

#[test]
fn new_path_is_empty() {
    let p: Path<P> = Path::new();
    assert!(p.is_empty());
    assert_eq!(p.len(), 0);
    assert_eq!(p.first_point(), None);
    assert_eq!(p.last_point(), None);
    assert_eq!(p.endpoint(), None);
    assert_eq!(p.last_element(), None);
    assert_eq!(p.first_element(), None);
    let d: Path<P> = Path::default();
    assert!(d.is_empty());
}

#[test]
fn commands_are_kept_in_order() {
    let p = sample();
    assert_eq!(p.len(), 6);
    assert_eq!(
        p.elements(),
        &[
            PathElement::MoveTo((0, 0)),
            PathElement::LineTo((1, 0)),
            PathElement::QuadTo((2, 0), (2, 1)),
            PathElement::Close,
            PathElement::MoveTo((5, 5)),
            PathElement::CurveTo((6, 5), (7, 6), (7, 7)),
        ]
    );
}

#[test]
fn first_element_is_the_first_drawing_command() {
    let mut p: Path<P> = Path::new();
    p.move_to((0, 0));
    p.move_to((1, 1));
    assert_eq!(p.first_element(), None);
    p.line_to((2, 2));
    assert_eq!(p.first_element(), Some(&PathElement::LineTo((2, 2))));
}

#[test]
fn points_of_the_path() {
    let p = sample();
    assert_eq!(p.first_point(), Some((0, 0)));
    assert_eq!(p.startpoint(), Some((0, 0)));
    assert_eq!(p.last_point(), Some((7, 7)));
    assert_eq!(p.endpoint(), Some((7, 7)));
    assert_eq!(p.last_element(), Some(&PathElement::CurveTo((6, 5), (7, 6), (7, 7))));
}

#[test]
fn a_closed_path_ends_at_its_subpath_start() {
    let mut p: Path<P> = Path::new();
    p.move_to((0, 0));
    p.line_to((4, 0));
    p.move_to((1, 1));
    p.line_to((3, 3));
    p.close();
    assert_eq!(p.endpoint(), Some((1, 1)));
    assert_eq!(p.last_point(), Some((3, 3)));
}

#[test]
fn close_on_an_empty_path_does_nothing() {
    let mut p: Path<P> = Path::new();
    p.close();
    assert!(p.is_empty());
}

#[test]
fn clear_empties_the_path() {
    let mut p = sample();
    p.clear();
    assert!(p.is_empty());
}

#[test]
fn subpaths_split_at_each_move() {
    let p = sample();
    assert_eq!(p.subpaths(), vec![(0, 4), (4, 6)]);
    let e: Path<P> = Path::new();
    assert_eq!(e.subpaths(), vec![]);
}

#[test]
fn segments_follow_the_commands() {
    let p = sample();
    assert_eq!(
        p.segments(),
        vec![
            PathSegment::Line((0, 0), (1, 0)),
            PathSegment::Quadratic((1, 0), (2, 0), (2, 1)),
            PathSegment::Line((2, 1), (0, 0)),
            PathSegment::Cubic((5, 5), (6, 5), (7, 6), (7, 7)),
        ]
    );
}

#[test]
fn extend_appends_commands() {
    let mut p: Path<P> = Path::new();
    p.extend(&[PathElement::MoveTo((1, 2)), PathElement::LineTo((3, 4))]);
    p.extend(&[PathElement::LineTo((5, 6))]);
    assert_eq!(p.len(), 3);
    assert_eq!(p.endpoint(), Some((5, 6)));
    p.extend(&[]);
    assert_eq!(p.len(), 3);
}

#[test]
fn endpoint_of_each_command() {
    assert_eq!(PathElement::MoveTo((1, 1)).endpoint(), Some((1, 1)));
    assert_eq!(PathElement::QuadTo((0, 0), (2, 2)).endpoint(), Some((2, 2)));
    assert_eq!(PathElement::<P>::Close.endpoint(), None);
}

#[test]
fn transform_path_maps_every_point() {
    let t = transform_path(&sample(), |p: P| (p.0 + 1, p.1 * 2));
    assert_eq!(
        t.elements(),
        &[
            PathElement::MoveTo((1, 0)),
            PathElement::LineTo((2, 0)),
            PathElement::QuadTo((3, 0), (3, 2)),
            PathElement::Close,
            PathElement::MoveTo((6, 10)),
            PathElement::CurveTo((7, 10), (8, 12), (8, 14)),
        ]
    );
    let empty: Path<P> = Path::new();
    assert!(transform_path(&empty, |p: P| p).is_empty());
}

#[test]
fn promote_path_raises_quadratics_from_the_current_point() {
    // The elevation here records its inputs, so that the test sees which
    // current point each quadratic was raised from.
    let mut p: Path<P> = Path::new();
    p.move_to((0, 0));
    p.quad_to((1, 1), (2, 0));
    p.close();
    p.quad_to((3, 3), (4, 0));
    p.line_to((5, 5));
    let q = promote_path(&p, |a: P, c: P, b: P| ((a.0 + c.0, a.1 + c.1), (c.0 + b.0, c.1 + b.1)));
    assert_eq!(
        q.elements(),
        &[
            PathElement::MoveTo((0, 0)),
            PathElement::CurveTo((1, 1), (3, 1), (2, 0)),
            PathElement::Close,
            // After `Close` the current point stays at the last end point.
            PathElement::CurveTo((5, 3), (7, 3), (4, 0)),
            PathElement::LineTo((5, 5)),
        ]
    );
    let s = sample();
    let r = promote_path(&s, |_a: P, c: P, b: P| (c, b));
    assert_eq!(r.len(), s.len());
    assert_eq!(r.elements()[2], PathElement::CurveTo((2, 0), (2, 1), (2, 1)));
    assert_eq!(r.elements()[5], s.elements()[5]);
}

#[test]
fn push_cubic_starts_or_joins_the_path() {
    let mut p: Path<P> = Path::new();
    p.push_cubic((0, 0), (1, 0), (1, 1), (2, 1));
    p.push_cubic((3, 1), (4, 1), (4, 2), (5, 2));
    assert_eq!(
        p.elements(),
        &[
            PathElement::MoveTo((0, 0)),
            PathElement::CurveTo((1, 0), (1, 1), (2, 1)),
            PathElement::LineTo((3, 1)),
            PathElement::CurveTo((4, 1), (4, 2), (5, 2)),
        ]
    );
}
