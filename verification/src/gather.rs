//! Gathering the outlines of a path into lists of points, for filling and
//! for hairline drawing. How one command becomes points (the geometry of
//! curves and of the transform) is the caller's, through a closure that
//! takes the current point and the command, and gives the points that the
//! command adds and the point where it leaves the path.

use crate::path::{Path, PathElement};
use crate::raster::runs_total;
use vstd::prelude::*;

verus! {

/// The state of gathering a path for filling after some of its commands:
/// the points so far, the lengths of the closed runs among them, where the
/// points of the current subpath start, the current point, and whether the
/// current subpath is still being gathered.
pub struct FillState<P> {
    pub points: Seq<P>,
    pub runs: Seq<usize>,
    pub start: int,
    pub current: P,
    pub open: bool,
}

/// Whether gathering for filling asks the caller for the points of command
/// `e` in state `g`: for every `MoveTo`, and for the drawing commands of a
/// subpath that is still being gathered.
pub open spec fn fill_takes<P>(g: FillState<P>, e: PathElement<P>) -> bool {
    e is MoveTo || (g.open && !(e is Close))
}

/// One step of gathering for filling; `out` is what the caller gave for `e`.
/// A `MoveTo` drops the points of a subpath that was never closed and starts
/// a new one; `Close` keeps the subpath as a run if it has at least three
/// points, else drops it, and either way ends the subpath.
pub open spec fn fill_step<P>(g: FillState<P>, e: PathElement<P>, out: (Seq<P>, P)) -> FillState<P> {
    match e {
        PathElement::MoveTo(_) => {
            let base = if g.open {
                g.points.take(g.start)
            } else {
                g.points
            };
            FillState {
                points: base + out.0,
                runs: g.runs,
                start: base.len() as int,
                current: out.1,
                open: true,
            }
        },
        PathElement::Close => {
            if !g.open {
                g
            } else if g.points.len() - g.start >= 3 {
                FillState {
                    points: g.points,
                    runs: g.runs.push((g.points.len() - g.start) as usize),
                    start: g.start,
                    current: g.current,
                    open: false,
                }
            } else {
                FillState {
                    points: g.points.take(g.start),
                    runs: g.runs,
                    start: g.start,
                    current: g.current,
                    open: false,
                }
            }
        },
        _ => {
            if g.open {
                FillState {
                    points: g.points + out.0,
                    runs: g.runs,
                    start: g.start,
                    current: out.1,
                    open: true,
                }
            } else {
                g
            }
        },
    }
}

/// The state of gathering `s` for filling after its first `n` commands,
/// where `outs[j]` is what the caller gave for command `j`.
pub open spec fn fill_upto<P>(s: Seq<PathElement<P>>, outs: Seq<(Vec<P>, P)>, n: nat) -> FillState<P>
    decreases n,
{
    if n == 0 {
        FillState { points: seq![], runs: seq![], start: 0, current: s[0]->MoveTo_0, open: false }
    } else {
        let j = (n - 1) as nat;
        fill_step(fill_upto(s, outs, j), s[j as int], (outs[j as int].0@, outs[j as int].1))
    }
}

/// `outs[j]` is an answer that `flatten` can give for each command `j` of
/// `s` that gathering for filling asks about.
pub open spec fn fill_answers<P, F: Fn(P, PathElement<P>) -> (Vec<P>, P)>(
    flatten: F,
    s: Seq<PathElement<P>>,
    outs: Seq<(Vec<P>, P)>,
) -> bool {
    &&& outs.len() == s.len()
    &&& forall|j: int|
        0 <= j < s.len() && fill_takes(fill_upto(s, outs, j as nat), s[j]) ==> flatten.ensures(
            (fill_upto(s, outs, j as nat).current, s[j]),
            #[trigger] outs[j],
        )
}

/// The points and runs that filling gathers from `s`: those of the closed
/// subpaths; the points of a subpath left open at the end are dropped.
pub open spec fn fill_result<P>(s: Seq<PathElement<P>>, outs: Seq<(Vec<P>, P)>) -> (Seq<P>, Seq<usize>) {
    let g = fill_upto(s, outs, s.len());
    (
        if g.open {
            g.points.take(g.start)
        } else {
            g.points
        },
        g.runs,
    )
}

/// Each command that gathering for filling asks about, but `Close`, leaves
/// the path at the point the caller gave for it, so that the next command
/// is flattened from there, and the subpath is then being gathered; a
/// drawing command appends exactly the points given for it and keeps the
/// runs and the start of the subpath.
pub proof fn fill_continues_from_each_answer<P>(s: Seq<PathElement<P>>, outs: Seq<(Vec<P>, P)>, j: nat)
    requires
        j < s.len(),
        fill_takes(fill_upto(s, outs, j), s[j as int]),
        !(s[j as int] is Close),
    ensures
        fill_upto(s, outs, j + 1).current == outs[j as int].1,
        fill_upto(s, outs, j + 1).open,
        !(s[j as int] is MoveTo) ==> {
            &&& fill_upto(s, outs, j + 1).points == fill_upto(s, outs, j).points + outs[j as int].0@
            &&& fill_upto(s, outs, j + 1).runs == fill_upto(s, outs, j).runs
            &&& fill_upto(s, outs, j + 1).start == fill_upto(s, outs, j).start
        },
{
}

/// A `Close` of a subpath being gathered for filling ends the subpath: with
/// at least three points it becomes a run of exactly those points, and with
/// fewer its points are dropped.
pub proof fn fill_close_keeps_only_real_polygons<P>(s: Seq<PathElement<P>>, outs: Seq<(Vec<P>, P)>, j: nat)
    requires
        j < s.len(),
        s[j as int] is Close,
        fill_upto(s, outs, j).open,
        0 <= fill_upto(s, outs, j).start <= fill_upto(s, outs, j).points.len(),
    ensures
        !fill_upto(s, outs, j + 1).open,
        ({
            let g = fill_upto(s, outs, j);
            let h = fill_upto(s, outs, j + 1);
            if g.points.len() - g.start >= 3 {
                h.points == g.points && h.runs == g.runs.push((g.points.len() - g.start) as usize)
            } else {
                h.points == g.points.take(g.start) && h.runs == g.runs
            }
        }),
{
}

proof fn lemma_fill_prefix<P>(
    s: Seq<PathElement<P>>,
    outs: Seq<(Vec<P>, P)>,
    more: Seq<(Vec<P>, P)>,
    n: nat,
)
    requires
        n <= outs.len(),
        n <= more.len(),
        forall|j: int| 0 <= j < n ==> outs[j] == more[j],
    ensures
        fill_upto(s, outs, n) == fill_upto(s, more, n),
    decreases n,
{
    if n > 0 {
        lemma_fill_prefix(s, outs, more, (n - 1) as nat);
    }
}

proof fn lemma_fill_push<P>(s: Seq<PathElement<P>>, outs: Seq<(Vec<P>, P)>, out: (Vec<P>, P))
    ensures
        forall|j: nat|
            j <= outs.len() ==> #[trigger] fill_upto(s, outs.push(out), j) == fill_upto(s, outs, j),
        fill_upto(s, outs.push(out), outs.len() + 1) == fill_step(
            fill_upto(s, outs, outs.len()),
            s[outs.len() as int],
            (out.0@, out.1),
        ),
{
    let more = outs.push(out);
    assert forall|j: nat| j <= outs.len() implies #[trigger] fill_upto(s, more, j) == fill_upto(
        s,
        outs,
        j,
    ) by {
        lemma_fill_prefix(s, outs, more, j);
    }
    assert(fill_upto(s, more, outs.len()) == fill_upto(s, outs, outs.len()));
    assert(more[outs.len() as int] == out);
}

/// Gathers the closed outlines of `path` for filling: for each subpath, the
/// points that `flatten` gives for its commands, from the point of its
/// `MoveTo` on; a subpath becomes a run when it is closed with at least
/// three points, the commands after its `Close` are skipped, and the points
/// of every other subpath are dropped. Returns the points and the lengths of
/// the runs, in order.
pub fn fill_outlines<P: Copy>(path: &Path<P>, flatten: impl Fn(P, PathElement<P>) -> (Vec<P>, P)) -> (r: (Vec<P>, Vec<usize>))
    requires
        forall|c: P, e: PathElement<P>| #[trigger] flatten.requires((c, e)),
    ensures
        exists|outs: Seq<(Vec<P>, P)>|
            {
                &&& #[trigger] fill_answers(flatten, path@, outs)
                &&& (r.0@, r.1@) == fill_result(path@, outs)
            },
        forall|k: int| 0 <= k < r.1@.len() ==> #[trigger] r.1@[k] >= 3,
        runs_total(r.1@) == r.0@.len(),
{
    let elements = path.elements();
    let n = elements.len();
    let mut points: Vec<P> = Vec::new();
    let mut runs: Vec<usize> = Vec::new();
    if n == 0 {
        proof {
            let outs = Seq::<(Vec<P>, P)>::empty();
            assert(fill_answers(flatten, path@, outs));
        }
        return (points, runs);
    }
    let mut current: P = match elements[0] {
        PathElement::MoveTo(p) => p,
        _ => {
            proof {
                assert(false);
            }
            return (points, runs);
        },
    };
    let mut start: usize = 0;
    let mut open = false;
    let ghost mut outs: Seq<(Vec<P>, P)> = seq![];
    let mut i: usize = 0;
    while i < n
        invariant
            elements@ == path@,
            n == path@.len(),
            i <= n,
            forall|c: P, e: PathElement<P>| #[trigger] flatten.requires((c, e)),
            outs.len() == i,
            forall|j: int|
                0 <= j < i && fill_takes(fill_upto(path@, outs, j as nat), path@[j]) ==> flatten.ensures(
                    (fill_upto(path@, outs, j as nat).current, path@[j]),
                    #[trigger] outs[j],
                ),
            fill_upto(path@, outs, i as nat) == (FillState {
                points: points@,
                runs: runs@,
                start: start as int,
                current,
                open,
            }),
            start <= points@.len(),
            runs_total(runs@) == if open {
                start as int
            } else {
                points@.len() as int
            },
            forall|k: int| 0 <= k < runs@.len() ==> #[trigger] runs@[k] >= 3,
        decreases n - i,
    {
        let e = elements[i];
        let ghost g = fill_upto(path@, outs, i as nat);
        let ghost mut out: (Vec<P>, P) = arbitrary();
        match e {
            PathElement::MoveTo(_) => {
                if open {
                    points.truncate(start);
                }
                start = points.len();
                let (mut more, next) = flatten(current, e);
                proof {
                    out = (more, next);
                }
                points.append(&mut more);
                current = next;
                open = true;
            },
            PathElement::Close => {
                if open {
                    let count = points.len() - start;
                    if count >= 3 {
                        runs.push(count);
                        proof {
                            assert(runs@.drop_last() == g.runs);
                        }
                    } else {
                        points.truncate(start);
                    }
                    open = false;
                }
            },
            _ => {
                if open {
                    let (mut more, next) = flatten(current, e);
                    proof {
                        out = (more, next);
                    }
                    points.append(&mut more);
                    current = next;
                }
            },
        }
        proof {
            lemma_fill_push(path@, outs, out);
            outs = outs.push(out);
        }
        i += 1;
    }
    if open {
        points.truncate(start);
    }
    proof {
        assert(fill_answers(flatten, path@, outs));
    }
    (points, runs)
}

/// The state of gathering a path into polylines after some of its commands:
/// the polylines of the finished subpaths, the points of the current one,
/// the current point, where the current subpath started, and whether the
/// current subpath has had no command yet but its `MoveTo`.
pub struct HairState<P> {
    pub lines: Seq<Seq<P>>,
    pub line: Seq<P>,
    pub current: P,
    pub start: P,
    pub single: bool,
}

/// The polylines gathered once the current subpath ends: a subpath made of
/// its `MoveTo` alone gives none.
pub open spec fn hair_finish<P>(g: HairState<P>) -> Seq<Seq<P>> {
    if g.single {
        g.lines
    } else {
        g.lines.push(g.line)
    }
}

/// One step of gathering into polylines; `out` is what the caller gave for
/// `e` (it gives nothing for `Close`, which goes back to the start of the
/// subpath without moving the current point).
pub open spec fn hair_step<P>(g: HairState<P>, e: PathElement<P>, out: (Seq<P>, P)) -> HairState<P> {
    match e {
        PathElement::MoveTo(_) => HairState {
            lines: hair_finish(g),
            line: out.0,
            current: out.1,
            start: out.1,
            single: true,
        },
        PathElement::Close => HairState {
            lines: g.lines,
            line: g.line.push(g.start),
            current: g.current,
            start: g.start,
            single: false,
        },
        _ => HairState {
            lines: g.lines,
            line: g.line + out.0,
            current: out.1,
            start: g.start,
            single: false,
        },
    }
}

/// The state of gathering `s` into polylines after its first `n` commands,
/// where `outs[j]` is what the caller gave for command `j`.
pub open spec fn hair_upto<P>(s: Seq<PathElement<P>>, outs: Seq<(Vec<P>, P)>, n: nat) -> HairState<P>
    decreases n,
{
    if n == 0 {
        let p = s[0]->MoveTo_0;
        HairState { lines: seq![], line: seq![], current: p, start: p, single: true }
    } else {
        let j = (n - 1) as nat;
        hair_step(hair_upto(s, outs, j), s[j as int], (outs[j as int].0@, outs[j as int].1))
    }
}

/// `outs[j]` is an answer that `flatten` can give for each command `j` of
/// `s` but `Close`.
pub open spec fn hair_answers<P, F: Fn(P, PathElement<P>) -> (Vec<P>, P)>(
    flatten: F,
    s: Seq<PathElement<P>>,
    outs: Seq<(Vec<P>, P)>,
) -> bool {
    &&& outs.len() == s.len()
    &&& forall|j: int|
        0 <= j < s.len() && !(s[j] is Close) ==> flatten.ensures(
            (hair_upto(s, outs, j as nat).current, s[j]),
            #[trigger] outs[j],
        )
}

/// Gathering into polylines: every command but `Close` leaves the path at
/// the point the caller gave for it, and a `MoveTo` also makes that point
/// the start of its subpath; a drawing command appends exactly the points
/// given for it; `Close` appends the start of the subpath and leaves the
/// current point where it was.
pub proof fn hairline_continues_from_each_answer<P>(s: Seq<PathElement<P>>, outs: Seq<(Vec<P>, P)>, j: nat)
    requires
        j < s.len(),
    ensures
        !(s[j as int] is Close) ==> hair_upto(s, outs, j + 1).current == outs[j as int].1,
        s[j as int] is MoveTo ==> hair_upto(s, outs, j + 1).start == outs[j as int].1,
        !(s[j as int] is Close) && !(s[j as int] is MoveTo) ==> {
            &&& hair_upto(s, outs, j + 1).line == hair_upto(s, outs, j).line + outs[j as int].0@
            &&& hair_upto(s, outs, j + 1).start == hair_upto(s, outs, j).start
            &&& hair_upto(s, outs, j + 1).lines == hair_upto(s, outs, j).lines
        },
        s[j as int] is Close ==> {
            &&& hair_upto(s, outs, j + 1).line == hair_upto(s, outs, j).line.push(
                hair_upto(s, outs, j).start,
            )
            &&& hair_upto(s, outs, j + 1).current == hair_upto(s, outs, j).current
        },
{
}

proof fn lemma_hair_push<P>(s: Seq<PathElement<P>>, outs: Seq<(Vec<P>, P)>, out: (Vec<P>, P))
    ensures
        forall|j: nat|
            j <= outs.len() ==> #[trigger] hair_upto(s, outs.push(out), j) == hair_upto(s, outs, j),
        hair_upto(s, outs.push(out), outs.len() + 1) == hair_step(
            hair_upto(s, outs, outs.len()),
            s[outs.len() as int],
            (out.0@, out.1),
        ),
{
    let more = outs.push(out);
    assert forall|j: nat| j <= outs.len() implies #[trigger] hair_upto(s, more, j) == hair_upto(
        s,
        outs,
        j,
    ) by {
        lemma_hair_prefix(s, outs, more, j);
    }
    assert(hair_upto(s, more, outs.len()) == hair_upto(s, outs, outs.len()));
    assert(more[outs.len() as int] == out);
}

proof fn lemma_hair_prefix<P>(
    s: Seq<PathElement<P>>,
    outs: Seq<(Vec<P>, P)>,
    more: Seq<(Vec<P>, P)>,
    n: nat,
)
    requires
        n <= outs.len(),
        n <= more.len(),
        forall|j: int| 0 <= j < n ==> outs[j] == more[j],
    ensures
        hair_upto(s, outs, n) == hair_upto(s, more, n),
    decreases n,
{
    if n > 0 {
        lemma_hair_prefix(s, outs, more, (n - 1) as nat);
    }
}

/// Gathers `path` into one polyline per subpath that has a command besides
/// its `MoveTo`: the points that `flatten` gives for its commands, from the
/// point of its `MoveTo` on, where `Close` adds the start of the subpath.
pub fn hairline_polylines<P: Copy>(path: &Path<P>, flatten: impl Fn(P, PathElement<P>) -> (Vec<P>, P)) -> (r: Vec<Vec<P>>)
    requires
        forall|c: P, e: PathElement<P>| #[trigger] flatten.requires((c, e)),
    ensures
        exists|outs: Seq<(Vec<P>, P)>|
            {
                &&& #[trigger] hair_answers(flatten, path@, outs)
                &&& r@.len() == hair_finish(hair_upto(path@, outs, path@.len())).len()
                &&& forall|k: int|
                    0 <= k < r@.len() ==> #[trigger] r@[k]@ == hair_finish(
                        hair_upto(path@, outs, path@.len()),
                    )[k]
            },
{
    let elements = path.elements();
    let n = elements.len();
    let mut lines: Vec<Vec<P>> = Vec::new();
    let mut line: Vec<P> = Vec::new();
    if n == 0 {
        proof {
            let outs = Seq::<(Vec<P>, P)>::empty();
            assert(hair_answers(flatten, path@, outs));
        }
        return lines;
    }
    let mut current: P = match elements[0] {
        PathElement::MoveTo(p) => p,
        _ => {
            proof {
                assert(false);
            }
            return lines;
        },
    };
    let mut start: P = current;
    let mut single = true;
    let ghost mut outs: Seq<(Vec<P>, P)> = seq![];
    let mut i: usize = 0;
    while i < n
        invariant
            elements@ == path@,
            n == path@.len(),
            i <= n,
            forall|c: P, e: PathElement<P>| #[trigger] flatten.requires((c, e)),
            outs.len() == i,
            forall|j: int|
                0 <= j < i && !(path@[j] is Close) ==> flatten.ensures(
                    (hair_upto(path@, outs, j as nat).current, path@[j]),
                    #[trigger] outs[j],
                ),
            hair_upto(path@, outs, i as nat).line == line@,
            hair_upto(path@, outs, i as nat).current == current,
            hair_upto(path@, outs, i as nat).start == start,
            hair_upto(path@, outs, i as nat).single == single,
            hair_upto(path@, outs, i as nat).lines.len() == lines@.len(),
            forall|k: int|
                0 <= k < lines@.len() ==> #[trigger] lines@[k]@ == hair_upto(
                    path@,
                    outs,
                    i as nat,
                ).lines[k],
        decreases n - i,
    {
        let e = elements[i];
        let ghost g = hair_upto(path@, outs, i as nat);
        let ghost mut out: (Vec<P>, P) = arbitrary();
        match e {
            PathElement::Close => {
                line.push(start);
                single = false;
            },
            PathElement::MoveTo(_) => {
                let (more, next) = flatten(current, e);
                proof {
                    out = (more, next);
                }
                if !single {
                    lines.push(line);
                }
                line = more;
                current = next;
                start = next;
                single = true;
            },
            _ => {
                let (mut more, next) = flatten(current, e);
                proof {
                    out = (more, next);
                }
                line.append(&mut more);
                current = next;
                single = false;
            },
        }
        proof {
            lemma_hair_push(path@, outs, out);
            outs = outs.push(out);
        }
        i += 1;
    }
    if !single {
        lines.push(line);
    }
    proof {
        assert(hair_answers(flatten, path@, outs));
    }
    lines
}

/// The state of span gathering (gathering a path for filling with runs kept
/// as positions) after some of its commands: the points so far, the runs closed so far as the
/// positions of their first and last points, where the points of the
/// current subpath start, the current point, and whether the current
/// subpath is still being gathered.
pub struct SpanState<P> {
    pub points: Seq<P>,
    pub runs: Seq<(usize, usize)>,
    pub start: int,
    pub current: P,
    pub open: bool,
}

/// One step of span gathering; `out` is what the caller gave for `e`. Unlike `fill_step`, a subpath that is not closed keeps its points,
/// and `Close` records a run as soon as the subpath has one point.
pub open spec fn span_step<P>(g: SpanState<P>, e: PathElement<P>, out: (Seq<P>, P)) -> SpanState<P> {
    match e {
        PathElement::MoveTo(_) => SpanState {
            points: g.points + out.0,
            runs: g.runs,
            start: g.points.len() as int,
            current: out.1,
            open: true,
        },
        PathElement::Close => {
            if !g.open {
                g
            } else if g.points.len() > g.start {
                SpanState {
                    points: g.points,
                    runs: g.runs.push((g.start as usize, (g.points.len() - 1) as usize)),
                    start: g.start,
                    current: g.current,
                    open: false,
                }
            } else {
                SpanState {
                    points: g.points,
                    runs: g.runs,
                    start: g.start,
                    current: g.current,
                    open: false,
                }
            }
        },
        _ => {
            if g.open {
                SpanState {
                    points: g.points + out.0,
                    runs: g.runs,
                    start: g.start,
                    current: out.1,
                    open: true,
                }
            } else {
                g
            }
        },
    }
}

/// The state of span gathering of `s` after its first `n` commands.
pub open spec fn span_upto<P>(s: Seq<PathElement<P>>, outs: Seq<(Vec<P>, P)>, n: nat) -> SpanState<P>
    decreases n,
{
    if n == 0 {
        SpanState { points: seq![], runs: seq![], start: 0, current: s[0]->MoveTo_0, open: false }
    } else {
        let j = (n - 1) as nat;
        span_step(span_upto(s, outs, j), s[j as int], (outs[j as int].0@, outs[j as int].1))
    }
}

/// `outs[j]` is an answer that `flatten` can give for each command `j` of
/// `s` that span gathering asks about (the same commands as for
/// `fill_outlines`).
pub open spec fn span_answers<P, F: Fn(P, PathElement<P>) -> (Vec<P>, P)>(
    flatten: F,
    s: Seq<PathElement<P>>,
    outs: Seq<(Vec<P>, P)>,
) -> bool {
    &&& outs.len() == s.len()
    &&& forall|j: int|
        0 <= j < s.len() && (s[j] is MoveTo || (span_upto(s, outs, j as nat).open && !(
        s[j] is Close))) ==> flatten.ensures(
            (span_upto(s, outs, j as nat).current, s[j]),
            #[trigger] outs[j],
        )
}

/// Span gathering: each command it asks about, but `Close`, leaves the path
/// at the point the caller gave for it, and a drawing command appends
/// exactly the points given for it; a `Close` of a subpath with points
/// records the run from the subpath's first point to the last point so far.
pub proof fn span_continues_from_each_answer<P>(s: Seq<PathElement<P>>, outs: Seq<(Vec<P>, P)>, j: nat)
    requires
        j < s.len(),
        s[j as int] is MoveTo || (span_upto(s, outs, j).open && !(s[j as int] is Close)),
    ensures
        span_upto(s, outs, j + 1).current == outs[j as int].1,
        span_upto(s, outs, j + 1).open,
        span_upto(s, outs, j + 1).points == span_upto(s, outs, j).points + outs[j as int].0@,
        s[j as int] is MoveTo ==> span_upto(s, outs, j + 1).start == span_upto(s, outs, j).points.len(),
{
}

/// A `Close` of a subpath that has given points records one run, from the
/// subpath's first point to the last point gathered, and ends the subpath.
pub proof fn span_close_records_the_subpath<P>(s: Seq<PathElement<P>>, outs: Seq<(Vec<P>, P)>, j: nat)
    requires
        j < s.len(),
        s[j as int] is Close,
        span_upto(s, outs, j).open,
        span_upto(s, outs, j).points.len() > span_upto(s, outs, j).start,
    ensures
        span_upto(s, outs, j + 1).runs == span_upto(s, outs, j).runs.push(
            (
                span_upto(s, outs, j).start as usize,
                (span_upto(s, outs, j).points.len() - 1) as usize,
            ),
        ),
        !span_upto(s, outs, j + 1).open,
{
}

proof fn lemma_span_prefix<P>(
    s: Seq<PathElement<P>>,
    outs: Seq<(Vec<P>, P)>,
    more: Seq<(Vec<P>, P)>,
    n: nat,
)
    requires
        n <= outs.len(),
        n <= more.len(),
        forall|j: int| 0 <= j < n ==> outs[j] == more[j],
    ensures
        span_upto(s, outs, n) == span_upto(s, more, n),
    decreases n,
{
    if n > 0 {
        lemma_span_prefix(s, outs, more, (n - 1) as nat);
    }
}

proof fn lemma_span_push<P>(s: Seq<PathElement<P>>, outs: Seq<(Vec<P>, P)>, out: (Vec<P>, P))
    ensures
        forall|j: nat|
            j <= outs.len() ==> #[trigger] span_upto(s, outs.push(out), j) == span_upto(s, outs, j),
        span_upto(s, outs.push(out), outs.len() + 1) == span_step(
            span_upto(s, outs, outs.len()),
            s[outs.len() as int],
            (out.0@, out.1),
        ),
{
    let more = outs.push(out);
    assert forall|j: nat| j <= outs.len() implies #[trigger] span_upto(s, more, j) == span_upto(
        s,
        outs,
        j,
    ) by {
        lemma_span_prefix(s, outs, more, j);
    }
    assert(span_upto(s, more, outs.len()) == span_upto(s, outs, outs.len()));
    assert(more[outs.len() as int] == out);
}

/// Every run `(first, last)` of `runs` has `first <= last < len`.
pub open spec fn spans_within(runs: Seq<(usize, usize)>, len: int) -> bool {
    forall|k: int| 0 <= k < runs.len() ==> #[trigger] runs[k].0 <= runs[k].1 < len
}

proof fn lemma_span_within<P>(s: Seq<PathElement<P>>, outs: Seq<(Vec<P>, P)>, n: nat)
    requires
        span_upto(s, outs, n).points.len() <= usize::MAX,
    ensures
        0 <= span_upto(s, outs, n).start <= span_upto(s, outs, n).points.len(),
        spans_within(span_upto(s, outs, n).runs, span_upto(s, outs, n).points.len() as int),
    decreases n,
{
    if n > 0 {
        let j = (n - 1) as nat;
        let g = span_upto(s, outs, j);
        let h = span_upto(s, outs, n);
        assert(g.points.len() <= h.points.len());
        lemma_span_within(s, outs, j);
        assert forall|k: int| 0 <= k < h.runs.len() implies #[trigger] h.runs[k].0 <= h.runs[k].1
            < h.points.len() by {
            if k < g.runs.len() {
                assert(h.runs[k] == g.runs[k]);
                assert(g.runs[k].0 <= g.runs[k].1 < g.points.len());
            }
        }
    }
}

/// Span gathering of the outlines of `path` for filling: the
/// points that `flatten` gives for the commands of every subpath, from the
/// point of its `MoveTo` up to its `Close`, and a run `(first, last)` of
/// point positions for each subpath closed after it has given a point. The
/// points of subpaths that are not closed stay in the list.
pub fn span_outlines<P: Copy>(path: &Path<P>, flatten: impl Fn(P, PathElement<P>) -> (Vec<P>, P)) -> (r: (Vec<P>, Vec<(usize, usize)>))
    requires
        forall|c: P, e: PathElement<P>| #[trigger] flatten.requires((c, e)),
    ensures
        exists|outs: Seq<(Vec<P>, P)>|
            {
                &&& #[trigger] span_answers(flatten, path@, outs)
                &&& r.0@ == span_upto(path@, outs, path@.len()).points
                &&& r.1@ == span_upto(path@, outs, path@.len()).runs
            },
        spans_within(r.1@, r.0@.len() as int),
{
    let elements = path.elements();
    let n = elements.len();
    let mut points: Vec<P> = Vec::new();
    let mut runs: Vec<(usize, usize)> = Vec::new();
    if n == 0 {
        proof {
            let outs = Seq::<(Vec<P>, P)>::empty();
            assert(span_answers(flatten, path@, outs));
        }
        return (points, runs);
    }
    let mut current: P = match elements[0] {
        PathElement::MoveTo(p) => p,
        _ => {
            proof {
                assert(false);
            }
            return (points, runs);
        },
    };
    let mut start: usize = 0;
    let mut open = false;
    let ghost mut outs: Seq<(Vec<P>, P)> = seq![];
    let mut i: usize = 0;
    while i < n
        invariant
            elements@ == path@,
            n == path@.len(),
            i <= n,
            forall|c: P, e: PathElement<P>| #[trigger] flatten.requires((c, e)),
            outs.len() == i,
            forall|j: int|
                0 <= j < i && (path@[j] is MoveTo || (span_upto(path@, outs, j as nat).open && !(
                path@[j] is Close))) ==> flatten.ensures(
                    (span_upto(path@, outs, j as nat).current, path@[j]),
                    #[trigger] outs[j],
                ),
            span_upto(path@, outs, i as nat) == (SpanState {
                points: points@,
                runs: runs@,
                start: start as int,
                current,
                open,
            }),
            start <= points@.len(),
        decreases n - i,
    {
        let e = elements[i];
        let ghost g = span_upto(path@, outs, i as nat);
        let ghost mut out: (Vec<P>, P) = arbitrary();
        match e {
            PathElement::MoveTo(_) => {
                start = points.len();
                let (mut more, next) = flatten(current, e);
                proof {
                    out = (more, next);
                }
                points.append(&mut more);
                current = next;
                open = true;
            },
            PathElement::Close => {
                if open {
                    if points.len() > start {
                        runs.push((start, points.len() - 1));
                    }
                    open = false;
                }
            },
            _ => {
                if open {
                    let (mut more, next) = flatten(current, e);
                    proof {
                        out = (more, next);
                    }
                    points.append(&mut more);
                    current = next;
                }
            },
        }
        proof {
            lemma_span_push(path@, outs, out);
            outs = outs.push(out);
            assert(span_upto(path@, outs, (i + 1) as nat) == span_step(g, e, (out.0@, out.1)));
        }
        i += 1;
    }
    let total = points.len();
    proof {
        assert(span_answers(flatten, path@, outs));
        lemma_span_within(path@, outs, n as nat);
    }
    (points, runs)
}

} // verus!
