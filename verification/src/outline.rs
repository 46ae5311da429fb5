//! Assembling the outline of a stroke from the two offset sides of the
//! stroked path: the forward side in order, then the backward side reversed.

use vstd::prelude::*;
use crate::path::{Path, PathElement, point_of};

verus! {

/// A command of the reversed path whose end point is not known yet.
pub enum Pending<P> {
    MoveTo,
    LineTo,
    QuadTo(P),
    CurveTo(P, P),
}

/// The command that `pending` becomes once its end point is `p`.
pub open spec fn complete<P>(pending: Pending<P>, p: P) -> PathElement<P> {
    match pending {
        Pending::MoveTo => PathElement::MoveTo(p),
        Pending::LineTo => PathElement::LineTo(p),
        Pending::QuadTo(c) => PathElement::QuadTo(c, p),
        Pending::CurveTo(c1, c2) => PathElement::CurveTo(c1, c2, p),
    }
}

/// The last subpath of `s` has no `Close`, so that it can be reversed.
pub open spec fn reversible<P>(s: Seq<PathElement<P>>) -> bool
    decreases s.len(),
{
    if s.len() == 0 {
        true
    } else {
        match s.last() {
            PathElement::MoveTo(_) => true,
            PathElement::Close => false,
            _ => reversible(s.drop_last()),
        }
    }
}

/// The last subpath of `s`, traversed backwards, where `pending` is the
/// command that the last point of `s` completes: every command becomes the
/// one that runs back over the same piece, its control points swapped, and
/// the last point becomes the start.
pub open spec fn reversed_from<P>(s: Seq<PathElement<P>>, pending: Pending<P>) -> Seq<PathElement<P>>
    decreases s.len(),
{
    if s.len() == 0 {
        seq![]
    } else {
        match s.last() {
            PathElement::MoveTo(p) => seq![complete(pending, p)],
            PathElement::LineTo(p) => seq![complete(pending, p)] + reversed_from(
                s.drop_last(),
                Pending::LineTo,
            ),
            PathElement::QuadTo(c, p) => seq![complete(pending, p)] + reversed_from(
                s.drop_last(),
                Pending::QuadTo(c),
            ),
            PathElement::CurveTo(c1, c2, p) => seq![complete(pending, p)] + reversed_from(
                s.drop_last(),
                Pending::CurveTo(c2, c1),
            ),
            PathElement::Close => seq![],
        }
    }
}

/// The last subpath of `s`, reversed.
pub open spec fn reversed<P>(s: Seq<PathElement<P>>) -> Seq<PathElement<P>> {
    reversed_from(s, Pending::MoveTo)
}

impl<P: Copy> Pending<P> {
    /// Appends the command that `self` becomes once its end point is `endpoint`.
    fn complete_with_endpoint(self, dest: &mut Path<P>, endpoint: P)
        requires
            self is MoveTo || old(dest)@.len() > 0,
        ensures
            final(dest)@ == old(dest)@.push(complete(self, endpoint)),
    {
        match self {
            Pending::MoveTo => dest.push(PathElement::MoveTo(endpoint)),
            Pending::LineTo => dest.push(PathElement::LineTo(endpoint)),
            Pending::QuadTo(control) => dest.push(PathElement::QuadTo(control, endpoint)),
            Pending::CurveTo(control1, control2) => dest.push(
                PathElement::CurveTo(control1, control2, endpoint),
            ),
        }
    }
}

/// Appends the last subpath of `src`, reversed, to `dest`.
pub fn extend_reversed<P: Copy>(dest: &mut Path<P>, src: &Path<P>)
    requires
        reversible(src@),
    ensures
        final(dest)@ == old(dest)@ + reversed(src@),
{
    let elements = src.elements();
    let mut pending: Pending<P> = Pending::MoveTo;
    let mut i: usize = elements.len();
    assert(elements@.take(i as int) =~= elements@);
    loop
        invariant_except_break
            i <= elements@.len(),
            reversible(elements@.take(i as int)),
            dest@ + reversed_from(elements@.take(i as int), pending) == old(dest)@ + reversed(
                elements@,
            ),
            pending is MoveTo || dest@.len() > 0,
        ensures
            dest@ == old(dest)@ + reversed(elements@),
        decreases i,
    {
        if i == 0 {
            assert(dest@ =~= old(dest)@ + reversed(elements@));
            break;
        }
        let ghost prefix = elements@.take(i as int);
        assert(prefix.drop_last() =~= elements@.take(i - 1));
        assert(prefix.last() == elements@[i - 1]);
        let ghost before = dest@;
        match elements[i - 1] {
            PathElement::LineTo(endpoint) => {
                let prev = pending;
                pending = Pending::LineTo;
                prev.complete_with_endpoint(dest, endpoint);
                assert(dest@ + reversed_from(elements@.take(i - 1), pending) =~= before
                    + reversed_from(prefix, prev));
            },
            PathElement::QuadTo(control, endpoint) => {
                let prev = pending;
                pending = Pending::QuadTo(control);
                prev.complete_with_endpoint(dest, endpoint);
                assert(dest@ + reversed_from(elements@.take(i - 1), pending) =~= before
                    + reversed_from(prefix, prev));
            },
            PathElement::CurveTo(control1, control2, endpoint) => {
                let prev = pending;
                pending = Pending::CurveTo(control2, control1);
                prev.complete_with_endpoint(dest, endpoint);
                assert(dest@ + reversed_from(elements@.take(i - 1), pending) =~= before
                    + reversed_from(prefix, prev));
            },
            PathElement::MoveTo(endpoint) => {
                let prev = pending;
                prev.complete_with_endpoint(dest, endpoint);
                assert(dest@ =~= before + reversed_from(prefix, prev));
                break;
            },
            PathElement::Close => {
                assert(false);
                break;
            },
        }
        i -= 1;
    }
}

/// Appends a piece of one side of a stroke to that side: the whole piece
/// when the side is empty, else the piece without its leading `MoveTo`, so
/// that the side runs on from where it is.
pub fn join_piece<P: Copy>(side: &mut Path<P>, piece: &Path<P>)
    ensures
        final(side)@ == if old(side)@.len() == 0 {
            piece@
        } else if piece@.len() == 0 {
            old(side)@
        } else {
            old(side)@ + piece@.skip(1)
        },
{
    let elements = piece.elements();
    if side.is_empty() {
        side.extend(elements);
        return;
    }
    if elements.len() == 0 {
        return;
    }
    let mut i: usize = 1;
    assert(old(side)@ + elements@.subrange(1, 1) =~= old(side)@);
    while i < elements.len()
        invariant
            elements@ == piece@,
            1 <= i <= elements@.len(),
            old(side)@.len() > 0,
            side@ == old(side)@ + elements@.subrange(1, i as int),
        decreases elements@.len() - i,
    {
        side.push(elements[i]);
        proof {
            assert(old(side)@ + elements@.subrange(1, i + 1) =~= old(side)@ + elements@.subrange(
                1,
                i as int,
            ).push(elements@[i as int]));
        }
        i += 1;
    }
    assert(elements@.subrange(1, elements@.len() as int) =~= elements@.skip(1));
}

/// The outline that `finish_outline` appends: the forward side closed back
/// to its start, then the backward side closed back to its start and
/// reversed, then `Close`.
pub open spec fn outline_of<P>(forward: Seq<PathElement<P>>, backward: Seq<PathElement<P>>) -> Seq<PathElement<P>> {
    let f = forward.push(PathElement::LineTo(forward[0]->MoveTo_0));
    let b = backward.push(PathElement::LineTo(backward[0]->MoveTo_0));
    f + reversed(b) + seq![PathElement::Close]
}

/// The outline that `finish_outline_closed` appends: the forward side with
/// `Close`, then the backward side reversed, then `Close`.
pub open spec fn closed_outline_of<P>(forward: Seq<PathElement<P>>, backward: Seq<PathElement<P>>) -> Seq<PathElement<P>> {
    forward.push(PathElement::Close) + reversed(backward) + seq![PathElement::Close]
}

proof fn lemma_reversible_push_line<P>(s: Seq<PathElement<P>>, p: P)
    ensures
        reversible(s.push(PathElement::LineTo(p))) == reversible(s),
{
    assert(s.push(PathElement::LineTo(p)).drop_last() =~= s);
}

/// Ends an open stroked subpath: when both sides have commands, appends
/// their outline to `output` and empties both sides; otherwise does
/// nothing.
pub fn finish_outline<P: Copy>(output: &mut Path<P>, forward: &mut Path<P>, backward: &mut Path<P>)
    requires
        reversible(old(backward)@),
    ensures
        if old(forward)@.len() == 0 || old(backward)@.len() == 0 {
            &&& final(output)@ == old(output)@
            &&& final(forward)@ == old(forward)@
            &&& final(backward)@ == old(backward)@
        } else {
            &&& final(output)@ == old(output)@ + outline_of(old(forward)@, old(backward)@)
            &&& final(forward)@ == Seq::<PathElement<P>>::empty()
            &&& final(backward)@ == Seq::<PathElement<P>>::empty()
        },
{
    if forward.is_empty() || backward.is_empty() {
        return;
    }
    let _ = forward.elements();
    let _ = backward.elements();
    match forward.startpoint() {
        Some(start) => forward.push(PathElement::LineTo(start)),
        None => {},
    }
    match backward.startpoint() {
        Some(start) => backward.push(PathElement::LineTo(start)),
        None => {},
    }
    proof {
        lemma_reversible_push_line(old(backward)@, old(backward)@[0]->MoveTo_0);
    }
    let f = forward.elements();
    output.extend(f);
    extend_reversed(output, backward);
    output.close();
    forward.clear();
    backward.clear();
    proof {
        assert(final(output)@ =~= old(output)@ + outline_of(old(forward)@, old(backward)@));
    }
}

/// Ends a closed stroked subpath: when both sides have commands, appends
/// their outline to `output` and empties both sides; otherwise does
/// nothing.
pub fn finish_outline_closed<P: Copy>(
    output: &mut Path<P>,
    forward: &mut Path<P>,
    backward: &mut Path<P>,
)
    requires
        reversible(old(backward)@),
    ensures
        if old(forward)@.len() == 0 || old(backward)@.len() == 0 {
            &&& final(output)@ == old(output)@
            &&& final(forward)@ == old(forward)@
            &&& final(backward)@ == old(backward)@
        } else {
            &&& final(output)@ == old(output)@ + closed_outline_of(old(forward)@, old(backward)@)
            &&& final(forward)@ == Seq::<PathElement<P>>::empty()
            &&& final(backward)@ == Seq::<PathElement<P>>::empty()
        },
{
    if forward.is_empty() || backward.is_empty() {
        return;
    }
    forward.close();
    let _ = forward.elements();
    output.extend(forward.elements());
    extend_reversed(output, backward);
    output.close();
    forward.clear();
    backward.clear();
    proof {
        assert(final(output)@ =~= old(output)@ + closed_outline_of(old(forward)@, old(backward)@));
    }
}

/// `e` draws a piece of the path: a line or a curve.
pub open spec fn is_drawing<P>(e: PathElement<P>) -> bool {
    e is LineTo || e is QuadTo || e is CurveTo
}

/// `s` is one open subpath: a `MoveTo` followed by lines and curves only.
pub open spec fn open_subpath<P>(s: Seq<PathElement<P>>) -> bool {
    &&& s.len() >= 1
    &&& s[0] is MoveTo
    &&& forall|i: int| 1 <= i < s.len() ==> is_drawing(#[trigger] s[i])
}

/// The pending command that runs back over the piece that `e` draws.
pub open spec fn pending_of<P>(e: PathElement<P>) -> Pending<P> {
    match e {
        PathElement::QuadTo(c, _) => Pending::QuadTo(c),
        PathElement::CurveTo(c1, c2, _) => Pending::CurveTo(c2, c1),
        PathElement::LineTo(_) => Pending::LineTo,
        _ => Pending::MoveTo,
    }
}

/// The end point of a command that has one.
pub open spec fn end_of<P>(e: PathElement<P>) -> P {
    point_of(e)->Some_0
}

proof fn lemma_reversed_shape<P>(s: Seq<PathElement<P>>, pending: Pending<P>)
    requires
        open_subpath(s),
    ensures
        reversible(s),
        reversed_from(s, pending).len() == s.len(),
        reversed_from(s, pending)[0] == complete(pending, end_of(s.last())),
        forall|k: int|
            1 <= k < s.len() ==> #[trigger] reversed_from(s, pending)[k] == complete(
                pending_of(s[s.len() - k]),
                end_of(s[s.len() - k - 1]),
            ),
    decreases s.len(),
{
    let n = s.len();
    if n == 1 {
        assert(s.last() == s[0]);
    } else {
        let t = s.drop_last();
        assert(is_drawing(s[n - 1]));
        assert(open_subpath(t)) by {
            assert forall|i: int| 1 <= i < t.len() implies is_drawing(#[trigger] t[i]) by {
                assert(t[i] == s[i]);
            }
        }
        let q = pending_of(s.last());
        lemma_reversed_shape(t, q);
        let r = reversed_from(s, pending);
        assert(r == seq![complete(pending, end_of(s.last()))] + reversed_from(t, q));
        assert forall|k: int| 1 <= k < n implies #[trigger] r[k] == complete(
            pending_of(s[n - k]),
            end_of(s[n - k - 1]),
        ) by {
            if k == 1 {
                assert(r[1] == reversed_from(t, q)[0]);
                assert(t.last() == s[n - 2]);
            } else {
                assert(r[k] == reversed_from(t, q)[k - 1]);
                assert(t[t.len() - (k - 1)] == s[n - k]);
                assert(t[t.len() - (k - 1) - 1] == s[n - k - 1]);
            }
        }
    }
}

/// Reversing an open subpath gives an open subpath with the same number of
/// commands, and reversing that gives back the path it came from: every piece is
/// run over backwards and then forwards again, with its control points in
/// their first order.
pub proof fn reversal_is_involution<P>(s: Seq<PathElement<P>>)
    requires
        open_subpath(s),
    ensures
        reversible(s),
        open_subpath(reversed(s)),
        reversed(s).len() == s.len(),
        reversible(reversed(s)),
        reversed(reversed(s)) == s,
{
    let n = s.len();
    lemma_reversed_shape(s, Pending::MoveTo);
    let t = reversed(s);
    assert(open_subpath(t)) by {
        assert forall|i: int| 1 <= i < t.len() implies is_drawing(#[trigger] t[i]) by {
            assert(is_drawing(s[n - i]));
        }
    }
    lemma_reversed_shape(t, Pending::MoveTo);
    let u = reversed(t);
    assert forall|k: int| 0 <= k < n implies #[trigger] u[k] == s[k] by {
        if k == 0 {
            assert(t.last() == t[n - 1]);
            if n > 1 {
                assert(t[n - 1] == complete(pending_of(s[1]), end_of(s[0])));
            }
        } else {
            assert(u[k] == complete(pending_of(t[n - k]), end_of(t[n - k - 1])));
            assert(t[n - k] == complete(pending_of(s[k]), end_of(s[k - 1])));
            assert(is_drawing(s[k]));
            if n - k - 1 >= 1 {
                assert(t[n - k - 1] == complete(pending_of(s[k + 1]), end_of(s[k])));
            }
        }
    }
    assert(u =~= s);
}

} // verus!
