use vector_graphics::outline::{extend_reversed, finish_outline, finish_outline_closed, join_piece};
use vector_graphics::path::{Path, PathElement};

type P = (i32, i32);

fn open_side() -> Path<P> {
    let mut p = Path::new();
    p.move_to((0, 0));
    p.line_to((1, 0));
    p.quad_to((2, 0), (2, 1));
    p.curve_to((3, 1), (3, 2), (4, 2));
    p
}

#[test]
fn reversing_runs_back_over_each_piece() {
    let mut dest: Path<P> = Path::new();
    extend_reversed(&mut dest, &open_side());
    assert_eq!(
        dest.elements(),
        &[
            PathElement::MoveTo((4, 2)),
            PathElement::CurveTo((3, 2), (3, 1), (2, 1)),
            PathElement::QuadTo((2, 0), (1, 0)),
            PathElement::LineTo((0, 0)),
        ]
    );
}

#[test]
fn reversing_twice_gives_back_the_subpath() {
    let side = open_side();
    let mut once: Path<P> = Path::new();
    extend_reversed(&mut once, &side);
    let mut twice: Path<P> = Path::new();
    extend_reversed(&mut twice, &once);
    assert_eq!(twice.elements(), side.elements());
}

#[test]
fn reversing_takes_only_the_last_subpath() {
    let mut src: Path<P> = Path::new();
    src.move_to((9, 9));
    src.line_to((8, 8));
    src.move_to((0, 0));
    src.line_to((1, 1));
    let mut dest: Path<P> = Path::new();
    dest.move_to((7, 7));
    extend_reversed(&mut dest, &src);
    assert_eq!(
        dest.elements(),
        &[PathElement::MoveTo((7, 7)), PathElement::MoveTo((1, 1)), PathElement::LineTo((0, 0))]
    );
}

#[test]
fn finish_outline_joins_both_sides() {
    let mut output: Path<P> = Path::new();
    let mut forward: Path<P> = Path::new();
    forward.move_to((0, 1));
    forward.line_to((5, 1));
    let mut backward: Path<P> = Path::new();
    backward.move_to((0, -1));
    backward.line_to((5, -1));
    finish_outline(&mut output, &mut forward, &mut backward);
    assert!(forward.is_empty());
    assert!(backward.is_empty());
    assert_eq!(
        output.elements(),
        &[
            PathElement::MoveTo((0, 1)),
            PathElement::LineTo((5, 1)),
            PathElement::LineTo((0, 1)),
            PathElement::MoveTo((0, -1)),
            PathElement::LineTo((5, -1)),
            PathElement::LineTo((0, -1)),
            PathElement::Close,
        ]
    );
}

#[test]
fn finish_outline_needs_both_sides() {
    let mut output: Path<P> = Path::new();
    let mut forward: Path<P> = Path::new();
    forward.move_to((0, 1));
    let mut backward: Path<P> = Path::new();
    finish_outline(&mut output, &mut forward, &mut backward);
    assert!(output.is_empty());
    assert_eq!(forward.len(), 1);
}

#[test]
fn finish_outline_closed_closes_the_forward_side() {
    let mut output: Path<P> = Path::new();
    let mut forward: Path<P> = Path::new();
    forward.move_to((0, 0));
    forward.line_to((2, 0));
    let mut backward: Path<P> = Path::new();
    backward.move_to((0, 1));
    backward.line_to((2, 1));
    finish_outline_closed(&mut output, &mut forward, &mut backward);
    assert_eq!(
        output.elements(),
        &[
            PathElement::MoveTo((0, 0)),
            PathElement::LineTo((2, 0)),
            PathElement::Close,
            PathElement::MoveTo((2, 1)),
            PathElement::LineTo((0, 1)),
            PathElement::Close,
        ]
    );
}

#[test]
fn join_piece_continues_a_side() {
    let mut side: Path<P> = Path::new();
    let mut piece: Path<P> = Path::new();
    piece.move_to((0, 0));
    piece.line_to((1, 0));
    join_piece(&mut side, &piece);
    assert_eq!(side.elements(), &[PathElement::MoveTo((0, 0)), PathElement::LineTo((1, 0))]);

    let mut next: Path<P> = Path::new();
    next.move_to((1, 0));
    next.curve_to((2, 0), (2, 1), (3, 1));
    join_piece(&mut side, &next);
    assert_eq!(
        side.elements(),
        &[
            PathElement::MoveTo((0, 0)),
            PathElement::LineTo((1, 0)),
            PathElement::CurveTo((2, 0), (2, 1), (3, 1)),
        ]
    );

    let empty: Path<P> = Path::new();
    join_piece(&mut side, &empty);
    assert_eq!(side.len(), 3);
}
