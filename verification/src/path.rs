//! The structure of vector paths: sequences of drawing commands over points
//! of any type. The geometry of the points is the caller's.

use vstd::prelude::*;

verus! {

/// One command of a path.
#[derive(Clone, Copy, Debug, PartialEq)]
pub enum PathElement<P> {
    MoveTo(P),
    LineTo(P),
    QuadTo(P, P),
    CurveTo(P, P, P),
    Close,
}

/// The point a command ends at; `Close` has none of its own.
pub open spec fn point_of<P>(e: PathElement<P>) -> Option<P> {
    match e {
        PathElement::MoveTo(p) => Some(p),
        PathElement::LineTo(p) => Some(p),
        PathElement::QuadTo(_, p) => Some(p),
        PathElement::CurveTo(_, _, p) => Some(p),
        PathElement::Close => None,
    }
}

impl<P: Copy> PathElement<P> {
    /// The point this command ends at, if it has one.
    pub fn endpoint(&self) -> (p: Option<P>)
        ensures
            p == point_of(*self),
    {
        match self {
            PathElement::MoveTo(p) => Some(*p),
            PathElement::LineTo(p) => Some(*p),
            PathElement::QuadTo(_, p) => Some(*p),
            PathElement::CurveTo(_, _, p) => Some(*p),
            PathElement::Close => None,
        }
    }
}

/// A piece of a path between two consecutive points, with the point it
/// starts from.
#[derive(Clone, Copy, Debug, PartialEq)]
pub enum PathSegment<P> {
    Line(P, P),
    Quadratic(P, P, P),
    Cubic(P, P, P, P),
}

/// The point of the last command before the end of `s` that has one.
pub open spec fn last_point_of<P>(s: Seq<PathElement<P>>) -> Option<P>
    decreases s.len(),
{
    if s.len() == 0 {
        None
    } else {
        match point_of(s.last()) {
            Some(p) => Some(p),
            None => last_point_of(s.drop_last()),
        }
    }
}

/// The point of the last `MoveTo` in `s`.
pub open spec fn last_move_of<P>(s: Seq<PathElement<P>>) -> Option<P>
    decreases s.len(),
{
    if s.len() == 0 {
        None
    } else {
        match s.last() {
            PathElement::MoveTo(p) => Some(p),
            _ => last_move_of(s.drop_last()),
        }
    }
}

/// Where a path made of `s` ends: the point of its last command, or, when
/// the path ends with `Close`, the start of the subpath that it closes.
pub open spec fn end_point_of<P>(s: Seq<PathElement<P>>) -> Option<P> {
    if s.len() == 0 {
        None
    } else if s.last() is Close {
        last_move_of(s.drop_last())
    } else {
        point_of(s.last())
    }
}

/// The segments of the path made of `s[0..n]`, together with the current
/// point and the start of the current subpath after them.
pub open spec fn segments_upto<P>(s: Seq<PathElement<P>>, n: nat) -> (P, P, Seq<PathSegment<P>>)
    decreases n,
{
    if n <= 1 {
        let p = s[0]->MoveTo_0;
        (p, p, seq![])
    } else {
        let (cur, start, segs) = segments_upto(s, (n - 1) as nat);
        match s[n - 1] {
            PathElement::MoveTo(p) => (p, p, segs),
            PathElement::LineTo(p) => (p, start, segs.push(PathSegment::Line(cur, p))),
            PathElement::QuadTo(c, p) => (p, start, segs.push(PathSegment::Quadratic(cur, c, p))),
            PathElement::CurveTo(c1, c2, p) => (
                p,
                start,
                segs.push(PathSegment::Cubic(cur, c1, c2, p)),
            ),
            PathElement::Close => (start, start, segs.push(PathSegment::Line(cur, start))),
        }
    }
}

/// The segments of the path made of `s`: one per command after the first,
/// except `MoveTo`; `Close` gives the line back to the subpath's start.
pub open spec fn segments_of<P>(s: Seq<PathElement<P>>) -> Seq<PathSegment<P>> {
    if s.len() == 0 {
        seq![]
    } else {
        segments_upto(s, s.len()).2
    }
}

/// A sequence of path commands. A path that is not empty starts with
/// `MoveTo`.
pub struct Path<P> {
    elements: Vec<PathElement<P>>,
}

impl<P> View for Path<P> {
    type V = Seq<PathElement<P>>;

    closed spec fn view(&self) -> Seq<PathElement<P>> {
        self.elements@
    }
}

impl<P> Path<P> {
    #[verifier::type_invariant]
    spec fn starts_with_move(&self) -> bool {
        self.elements@.len() == 0 || self.elements@[0] is MoveTo
    }
}

impl<P: Copy> Path<P> {
    /// Takes the commands out, leaving the path empty.
    fn take_elements(&mut self) -> (v: Vec<PathElement<P>>)
        ensures
            v@ == old(self)@,
            final(self)@ == Seq::<PathElement<P>>::empty(),
    {
        let mut v = Vec::new();
        std::mem::swap(&mut v, &mut self.elements);
        v
    }

    /// An empty path.
    pub fn new() -> (p: Path<P>)
        ensures
            p@ == Seq::<PathElement<P>>::empty(),
    {
        Path { elements: Vec::new() }
    }

    /// The number of commands.
    pub fn len(&self) -> (n: usize)
        ensures
            n == self@.len(),
    {
        self.elements.len()
    }

    /// Whether the path has no commands.
    pub fn is_empty(&self) -> (b: bool)
        ensures
            b == (self@.len() == 0),
    {
        self.elements.len() == 0
    }

    /// The first command that is not `MoveTo`, if there is one.
    pub fn first_element(&self) -> (e: Option<&PathElement<P>>)
        ensures
            match e {
                Some(e) => exists|i: int|
                    0 <= i < self@.len() && self@[i] == *e && !(self@[i] is MoveTo) && forall|j: int|
                        0 <= j < i ==> #[trigger] self@[j] is MoveTo,
                None => forall|j: int| 0 <= j < self@.len() ==> #[trigger] self@[j] is MoveTo,
            },
    {
        let mut i: usize = 0;
        while i < self.elements.len()
            invariant
                i <= self@.len(),
                forall|j: int| 0 <= j < i ==> #[trigger] self@[j] is MoveTo,
            decreases self@.len() - i,
        {
            if let PathElement::MoveTo(..) = self.elements[i] {
            } else {
                return Some(&self.elements[i]);
            }
            i += 1;
        }
        None
    }

    /// The last command, if there is one.
    pub fn last_element(&self) -> (e: Option<&PathElement<P>>)
        ensures
            e == if self@.len() == 0 {
                None
            } else {
                Some(&self@.last())
            },
    {
        if self.elements.len() == 0 {
            None
        } else {
            Some(&self.elements[self.elements.len() - 1])
        }
    }

    /// The point the path starts at, if it is not empty.
    pub fn first_point(&self) -> (p: Option<P>)
        ensures
            p == if self@.len() == 0 {
                None
            } else {
                point_of(self@[0])
            },
    {
        proof {
            use_type_invariant(self);
        }
        if self.elements.len() == 0 {
            None
        } else {
            self.elements[0].endpoint()
        }
    }

    /// The point of the last command that has one, if any; `Close` does not
    /// count.
    pub fn last_point(&self) -> (p: Option<P>)
        ensures
            p == last_point_of(self@),
    {
        let mut i: usize = self.elements.len();
        assert(self@.take(i as int) =~= self@);
        while i > 0
            invariant
                i <= self@.len(),
                last_point_of(self@) == last_point_of(self@.take(i as int)),
            decreases i,
        {
            assert(self@.take(i as int).drop_last() =~= self@.take(i - 1));
            if let Some(p) = self.elements[i - 1].endpoint() {
                return Some(p);
            }
            i -= 1;
        }
        None
    }

    /// The point the path starts at (the same as `first_point`).
    pub fn startpoint(&self) -> (p: Option<P>)
        ensures
            p == if self@.len() == 0 {
                None
            } else {
                point_of(self@[0])
            },
    {
        self.first_point()
    }

    /// The point the path ends at: that of its last command, or, when it ends
    /// with `Close`, the start of the closed subpath.
    pub fn endpoint(&self) -> (p: Option<P>)
        ensures
            p == end_point_of(self@),
    {
        let n = self.elements.len();
        if n == 0 {
            return None;
        }
        match self.elements[n - 1] {
            PathElement::Close => {},
            PathElement::MoveTo(p) => return Some(p),
            PathElement::LineTo(p) => return Some(p),
            PathElement::QuadTo(_, p) => return Some(p),
            PathElement::CurveTo(_, _, p) => return Some(p),
        }
        let mut i: usize = n - 1;
        assert(self@.drop_last() =~= self@.take(i as int));
        while i > 0
            invariant
                i <= self@.len() - 1,
                end_point_of(self@) == last_move_of(self@.take(i as int)),
            decreases i,
        {
            assert(self@.take(i as int).drop_last() =~= self@.take(i - 1));
            if let PathElement::MoveTo(p) = self.elements[i - 1] {
                return Some(p);
            }
            i -= 1;
        }
        None
    }

    /// Removes every command.
    pub fn clear(&mut self)
        ensures
            final(self)@ == Seq::<PathElement<P>>::empty(),
    {
        let _ = self.take_elements();
    }

    /// Appends a command; only `MoveTo` may start an empty path.
    pub fn push(&mut self, element: PathElement<P>)
        requires
            element is MoveTo || old(self)@.len() > 0,
        ensures
            final(self)@ == old(self)@.push(element),
    {
        proof {
            use_type_invariant(&*self);
        }
        let mut v = self.take_elements();
        v.push(element);
        self.elements = v;
    }

    /// Starts a new subpath at `dest`.
    pub fn move_to(&mut self, dest: P)
        ensures
            final(self)@ == old(self)@.push(PathElement::MoveTo(dest)),
    {
        self.push(PathElement::MoveTo(dest));
    }

    /// A straight line to `dest`.
    pub fn line_to(&mut self, dest: P)
        requires
            old(self)@.len() > 0,
        ensures
            final(self)@ == old(self)@.push(PathElement::LineTo(dest)),
    {
        self.push(PathElement::LineTo(dest));
    }

    /// A quadratic curve through `control` to `dest`.
    pub fn quad_to(&mut self, control: P, dest: P)
        requires
            old(self)@.len() > 0,
        ensures
            final(self)@ == old(self)@.push(PathElement::QuadTo(control, dest)),
    {
        self.push(PathElement::QuadTo(control, dest));
    }

    /// A cubic curve through `control1` and `control2` to `dest`.
    pub fn curve_to(&mut self, control1: P, control2: P, dest: P)
        requires
            old(self)@.len() > 0,
        ensures
            final(self)@ == old(self)@.push(PathElement::CurveTo(control1, control2, dest)),
    {
        self.push(PathElement::CurveTo(control1, control2, dest));
    }

    /// Appends the cubic curve from `p0` through `p1` and `p2` to `p3`: an
    /// empty path starts at `p0`, any other one draws a line to `p0` first.
    pub fn push_cubic(&mut self, p0: P, p1: P, p2: P, p3: P)
        ensures
            final(self)@ == if old(self)@.len() == 0 {
                old(self)@.push(PathElement::MoveTo(p0))
            } else {
                old(self)@.push(PathElement::LineTo(p0))
            }.push(PathElement::CurveTo(p1, p2, p3)),
    {
        if self.is_empty() {
            self.push(PathElement::MoveTo(p0));
        } else {
            self.push(PathElement::LineTo(p0));
        }
        self.push(PathElement::CurveTo(p1, p2, p3));
    }

    /// Closes the current subpath; an empty path stays empty.
    pub fn close(&mut self)
        ensures
            final(self)@ == if old(self)@.len() == 0 {
                old(self)@
            } else {
                old(self)@.push(PathElement::Close)
            },
    {
        if self.is_empty() {
            return;
        }
        self.push(PathElement::Close);
    }

    /// Appends the commands of `elements`; an empty path may only be extended
    /// by commands that start with `MoveTo`.
    pub fn extend(&mut self, elements: &[PathElement<P>])
        requires
            old(self)@.len() > 0 || elements@.len() == 0 || elements@[0] is MoveTo,
        ensures
            final(self)@ == old(self)@ + elements@,
    {
        proof {
            use_type_invariant(&*self);
        }
        let mut v = self.take_elements();
        let mut i: usize = 0;
        while i < elements.len()
            invariant
                i <= elements@.len(),
                v@ == old(self)@ + elements@.take(i as int),
                old(self)@.len() > 0 || elements@.len() == 0 || elements@[0] is MoveTo,
                old(self)@.len() == 0 || old(self)@[0] is MoveTo,
                v@.len() == 0 || v@[0] is MoveTo,
            decreases elements@.len() - i,
        {
            v.push(elements[i]);
            proof {
                assert(elements@.take(i + 1) =~= elements@.take(i as int).push(elements@[i as int]));
            }
            i += 1;
        }
        proof {
            assert(elements@.take(i as int) =~= elements@);
        }
        self.elements = v;
    }

    /// The commands, in order; a path that is not empty starts with
    /// `MoveTo`.
    pub fn elements(&self) -> (s: &[PathElement<P>])
        ensures
            s@ == self@,
            s@.len() == 0 || s@[0] is MoveTo,
    {
        proof {
            use_type_invariant(self);
        }
        self.elements.as_slice()
    }

    /// The subpaths, as ranges `[start, end)` of command positions: each
    /// starts at a `MoveTo` and runs up to the next one or to the end.
    pub fn subpaths(&self) -> (r: Vec<(usize, usize)>)
        ensures
            (r@.len() == 0) == (self@.len() == 0),
            r@.len() > 0 ==> r@[0].0 == 0 && r@.last().1 == self@.len(),
            forall|k: int|
                0 <= k < r@.len() ==> {
                    &&& #[trigger] r@[k].0 < r@[k].1 <= self@.len()
                    &&& self@[r@[k].0 as int] is MoveTo
                    &&& forall|i: int| r@[k].0 < i < r@[k].1 ==> !(#[trigger] self@[i] is MoveTo)
                },
            forall|k: int| 0 <= k < r@.len() - 1 ==> #[trigger] r@[k].1 == r@[k + 1].0,
    {
        proof {
            use_type_invariant(self);
        }
        let n = self.elements.len();
        let mut r: Vec<(usize, usize)> = Vec::new();
        let mut i: usize = 0;
        while i < n
            invariant
                n == self@.len(),
                i <= n,
                self@.len() == 0 || self@[0] is MoveTo,
                i < n ==> self@[i as int] is MoveTo,
                (r@.len() == 0) == (i == 0),
                r@.len() > 0 ==> r@[0].0 == 0 && r@.last().1 == i,
                forall|k: int|
                    0 <= k < r@.len() ==> {
                        &&& #[trigger] r@[k].0 < r@[k].1 <= n
                        &&& self@[r@[k].0 as int] is MoveTo
                        &&& forall|j: int| r@[k].0 < j < r@[k].1 ==> !(#[trigger] self@[j] is MoveTo)
                    },
                forall|k: int| 0 <= k < r@.len() - 1 ==> #[trigger] r@[k].1 == r@[k + 1].0,
            decreases n - i,
        {
            let start = i;
            i += 1;
            while i < n && !matches!(self.elements[i], PathElement::MoveTo(..))
                invariant
                    n == self@.len(),
                    start < i <= n,
                    forall|j: int| start < j < i ==> !(#[trigger] self@[j] is MoveTo),
                decreases n - i,
            {
                i += 1;
            }
            let ghost prev = r@;
            r.push((start, i));
            proof {
                assert forall|k: int| 0 <= k < r@.len() - 1 implies #[trigger] r@[k].1 == r@[k
                    + 1].0 by {
                    if k == r@.len() - 2 {
                        assert(prev.last().1 == start);
                    }
                }
            }
        }
        r
    }

    /// The segments of the path: one per command after the first, except
    /// `MoveTo`, each with the point it starts from; `Close` gives the line
    /// back to the start of its subpath.
    pub fn segments(&self) -> (segs: Vec<PathSegment<P>>)
        ensures
            segs@ == segments_of(self@),
    {
        proof {
            use_type_invariant(self);
        }
        let mut segs: Vec<PathSegment<P>> = Vec::new();
        let n = self.elements.len();
        if n == 0 {
            return segs;
        }
        let (mut current, mut start) = match self.elements[0] {
            PathElement::MoveTo(p) => (p, p),
            _ => {
                proof {
                    assert(false);
                }
                return segs;
            },
        };
        let mut i: usize = 1;
        while i < n
            invariant
                n == self@.len(),
                1 <= i <= n,
                (current, start, segs@) == segments_upto(self@, i as nat),
            decreases n - i,
        {
            match self.elements[i] {
                PathElement::MoveTo(p) => {
                    current = p;
                    start = p;
                },
                PathElement::LineTo(p) => {
                    segs.push(PathSegment::Line(current, p));
                    current = p;
                },
                PathElement::QuadTo(c, p) => {
                    segs.push(PathSegment::Quadratic(current, c, p));
                    current = p;
                },
                PathElement::CurveTo(c1, c2, p) => {
                    segs.push(PathSegment::Cubic(current, c1, c2, p));
                    current = p;
                },
                PathElement::Close => {
                    segs.push(PathSegment::Line(current, start));
                    current = start;
                },
            }
            i += 1;
        }
        segs
    }
}

/// `b` is `a` with each point `p` replaced by a `q` for which `rel(p, q)`.
pub open spec fn maps_points<P>(rel: spec_fn(P, P) -> bool, a: PathElement<P>, b: PathElement<P>) -> bool {
    match (a, b) {
        (PathElement::MoveTo(p), PathElement::MoveTo(q)) => rel(p, q),
        (PathElement::LineTo(p), PathElement::LineTo(q)) => rel(p, q),
        (PathElement::QuadTo(c, p), PathElement::QuadTo(d, q)) => rel(c, d) && rel(p, q),
        (PathElement::CurveTo(c1, c2, p), PathElement::CurveTo(d1, d2, q)) => rel(c1, d1) && rel(
            c2,
            d2,
        ) && rel(p, q),
        (PathElement::Close, PathElement::Close) => true,
        _ => false,
    }
}

/// The path whose commands are those of `src`, each point passed through
/// `transform`.
pub fn transform_path<P: Copy>(src: &Path<P>, transform: impl Fn(P) -> P) -> (dest: Path<P>)
    requires
        forall|p: P| #[trigger] transform.requires((p,)),
    ensures
        dest@.len() == src@.len(),
        forall|i: int|
            0 <= i < src@.len() ==> maps_points(
                |p: P, q: P| transform.ensures((p,), q),
                src@[i],
                #[trigger] dest@[i],
            ),
{
    let elements = src.elements();
    let mut dest: Path<P> = Path::new();
    let ghost rel = |p: P, q: P| transform.ensures((p,), q);
    let mut i: usize = 0;
    while i < elements.len()
        invariant
            elements@ == src@,
            elements@.len() == 0 || elements@[0] is MoveTo,
            forall|p: P| #[trigger] transform.requires((p,)),
            rel == (|p: P, q: P| transform.ensures((p,), q)),
            i <= elements@.len(),
            dest@.len() == i,
            forall|j: int| 0 <= j < i ==> maps_points(rel, elements@[j], #[trigger] dest@[j]),
        decreases elements@.len() - i,
    {
        let ghost before = dest@;
        match elements[i] {
            PathElement::MoveTo(p) => dest.move_to(transform(p)),
            PathElement::LineTo(p) => {
                let q = transform(p);
                dest.line_to(q);
            },
            PathElement::QuadTo(c, p) => {
                let d = transform(c);
                let q = transform(p);
                dest.quad_to(d, q);
            },
            PathElement::CurveTo(c1, c2, p) => {
                let d1 = transform(c1);
                let d2 = transform(c2);
                let q = transform(p);
                dest.curve_to(d1, d2, q);
            },
            PathElement::Close => dest.close(),
        }
        proof {
            assert(dest@ == before.push(dest@[i as int]));
            assert(maps_points(rel, elements@[i as int], dest@[i as int]));
        }
        i += 1;
    }
    dest
}

/// What `promote_path` makes of command `e`, given the point `cur` that the
/// path is at before it and the relation `elevate` between a quadratic curve
/// `(start, control, end)` and the inner control points of the same curve as
/// a cubic.
pub open spec fn promoted<P>(
    elevate: spec_fn((P, P, P), (P, P)) -> bool,
    cur: P,
    e: PathElement<P>,
    f: PathElement<P>,
) -> bool {
    match e {
        PathElement::QuadTo(c, p) => match f {
            PathElement::CurveTo(c1, c2, q) => q == p && elevate((cur, c, p), (c1, c2)),
            _ => false,
        },
        _ => f == e,
    }
}

/// The path with every quadratic curve raised to a cubic one through
/// `elevate`, which maps the start, control point and end of a quadratic
/// curve to the two control points of the cubic curve that traces it; the
/// other commands are kept.
pub fn promote_path<P: Copy>(src: &Path<P>, elevate: impl Fn(P, P, P) -> (P, P)) -> (dest: Path<P>)
    requires
        forall|a: P, b: P, c: P| #[trigger] elevate.requires((a, b, c)),
    ensures
        dest@.len() == src@.len(),
        forall|i: int|
            0 <= i < src@.len() ==> promoted(
                |x: (P, P, P), y: (P, P)| elevate.ensures(x, y),
                last_point_of(src@.take(i))->Some_0,
                src@[i],
                #[trigger] dest@[i],
            ),
        forall|i: int| 0 <= i < dest@.len() ==> !(#[trigger] dest@[i] is QuadTo),
{
    let elements = src.elements();
    let mut dest: Path<P> = Path::new();
    let ghost rel = |x: (P, P, P), y: (P, P)| elevate.ensures(x, y);
    let n = elements.len();
    if n == 0 {
        return dest;
    }
    let mut current = match elements[0] {
        PathElement::MoveTo(p) => p,
        _ => {
            proof {
                assert(false);
            }
            return dest;
        },
    };
    let mut i: usize = 0;
    while i < n
        invariant
            elements@ == src@,
            n == elements@.len(),
            elements@[0] is MoveTo,
            forall|a: P, b: P, c: P| #[trigger] elevate.requires((a, b, c)),
            rel == (|x: (P, P, P), y: (P, P)| elevate.ensures(x, y)),
            i <= n,
            i > 0 ==> last_point_of(elements@.take(i as int)) == Some(current),
            i == 0 ==> elements@[0] == PathElement::MoveTo(current),
            dest@.len() == i,
            forall|j: int|
                0 <= j < i ==> promoted(
                    rel,
                    last_point_of(elements@.take(j))->Some_0,
                    elements@[j],
                    #[trigger] dest@[j],
                ),
        decreases n - i,
    {
        let ghost before = dest@;
        let e = elements[i];
        proof {
            assert(elements@.take(i + 1).drop_last() =~= elements@.take(i as int));
            assert(elements@.take(i + 1).last() == e);
        }
        match e {
            PathElement::MoveTo(p) => {
                dest.move_to(p);
                current = p;
            },
            PathElement::LineTo(p) => {
                dest.line_to(p);
                current = p;
            },
            PathElement::QuadTo(c, p) => {
                let (c1, c2) = elevate(current, c, p);
                dest.curve_to(c1, c2, p);
                current = p;
            },
            PathElement::CurveTo(c1, c2, p) => {
                dest.curve_to(c1, c2, p);
                current = p;
            },
            PathElement::Close => dest.close(),
        }
        proof {
            assert(dest@ == before.push(dest@[i as int]));
            assert(promoted(
                rel,
                last_point_of(elements@.take(i as int))->Some_0,
                elements@[i as int],
                dest@[i as int],
            ));
        }
        i += 1;
    }
    dest
}

/// Closing a path ends it where its current subpath started; any other
/// command ends it at the command's own point.
pub proof fn close_returns_to_start<P>(s: Seq<PathElement<P>>, e: PathElement<P>)
    ensures
        end_point_of(s.push(e)) == if e is Close {
            last_move_of(s)
        } else {
            point_of(e)
        },
{
    assert(s.push(e).drop_last() =~= s);
}

/// While the segments of a path are built, the current point is where the
/// commands so far end the path, and the subpath start is the point of the
/// last `MoveTo` so far; each command after the first adds the segment from
/// where the path is to its own point, and the line that a `Close` adds runs
/// back to the start of its own subpath.
pub proof fn segments_follow_the_path<P>(s: Seq<PathElement<P>>, n: nat)
    requires
        1 <= n <= s.len(),
        s[0] is MoveTo,
    ensures
        end_point_of(s.take(n as int)) is Some,
        last_move_of(s.take(n as int)) is Some,
        segments_upto(s, n).0 == end_point_of(s.take(n as int))->Some_0,
        segments_upto(s, n).1 == last_move_of(s.take(n as int))->Some_0,
        n >= 2 ==> segments_upto(s, n).2 == {
            let prev = segments_upto(s, (n - 1) as nat).2;
            let cur = end_point_of(s.take(n - 1))->Some_0;
            match s[n - 1] {
                PathElement::MoveTo(_) => prev,
                PathElement::LineTo(p) => prev.push(PathSegment::Line(cur, p)),
                PathElement::QuadTo(c, p) => prev.push(PathSegment::Quadratic(cur, c, p)),
                PathElement::CurveTo(c1, c2, p) => prev.push(PathSegment::Cubic(cur, c1, c2, p)),
                PathElement::Close => prev.push(
                    PathSegment::Line(cur, last_move_of(s.take(n - 1))->Some_0),
                ),
            }
        },
    decreases n,
{
    let t = s.take(n as int);
    if n == 1 {
        assert(t.last() == s[0]);
        assert(t.drop_last().len() == 0);
    } else {
        segments_follow_the_path(s, (n - 1) as nat);
        assert(t.drop_last() =~= s.take(n - 1));
        assert(t.last() == s[n - 1]);
    }
}

/// The end point of a path differs from its last point only when the path
/// ends with `Close`: otherwise both are the point of the last command.
pub proof fn endpoint_is_last_point_unless_closed<P>(s: Seq<PathElement<P>>)
    requires
        s.len() > 0,
        !(s.last() is Close),
    ensures
        end_point_of(s) == last_point_of(s),
        end_point_of(s) is Some,
{
}

impl<P: Copy> Default for Path<P> {
    fn default() -> (p: Path<P>)
        ensures
            p@ == Seq::<PathElement<P>>::empty(),
    {
        Path::new()
    }
}

} // verus!
