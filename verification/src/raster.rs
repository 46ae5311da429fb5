//! Integer steps of rasterisation: setting single pixels, Bresenham lines,
//! coverage spans of a scanline and compositing a covered scanline.

use vstd::prelude::*;
use crate::canvas::Canvas;
use crate::color::{
    Color,
    alpha_of,
    blend_of,
    blend_laws,
    blue_of,
    green_of,
    red_of,
    with_alpha_laws,
    with_alpha_of,
};

verus! {

/// `x` is a value of `i32`.
pub open spec fn fits_i32(x: int) -> bool {
    i32::MIN <= x <= i32::MAX
}

/// `(x, y)` lies in a `width` × `height` image.
pub open spec fn in_image(width: int, height: int, x: int, y: int) -> bool {
    0 <= x < width && 0 <= y < height
}

/// Sets pixel `(x, y)` to `color` when it lies inside the canvas, and does
/// nothing otherwise.
pub fn put_pixel(canvas: &mut Canvas, x: i32, y: i32, color: Color)
    requires
        old(canvas).addressable(),
    ensures
        final(canvas).width == old(canvas).width,
        final(canvas).height == old(canvas).height,
        final(canvas).stride == old(canvas).stride,
        final(canvas).buffer().len() == old(canvas).buffer().len(),
        old(canvas).visible(x as int, y as int) ==> 0 <= old(canvas).index_of(x as int, y as int)
            < old(canvas).buffer().len(),
        final(canvas).buffer() == if old(canvas).visible(x as int, y as int) {
            old(canvas).buffer().update(old(canvas).index_of(x as int, y as int), color@)
        } else {
            old(canvas).buffer()
        },
{
    if x >= 0 && y >= 0 && x < canvas.width() && y < canvas.height() {
        proof {
            assert(canvas.contains(x as int, y as int));
            canvas.lemma_index_in_buffer(x as int, y as int);
        }
        *canvas.at_mut(x, y) = color.as_u32();
    }
}

/// First coordinate of the start of a line, whose ends are ordered so that
/// the first coordinate grows.
pub open spec fn line_a0(c0: int, c1: int) -> int {
    if c1 >= c0 {
        c0
    } else {
        c1
    }
}

/// Cross coordinate of the start of the ordered line.
pub open spec fn line_b0(c0: int, c1: int, u0: int, u1: int) -> int {
    if c1 >= c0 {
        u0
    } else {
        u1
    }
}

/// Cross coordinate of the end of the ordered line.
pub open spec fn line_b1(c0: int, c1: int, u0: int, u1: int) -> int {
    if c1 >= c0 {
        u1
    } else {
        u0
    }
}

/// State of Bresenham's decision before step `k` of a line that runs `dc`
/// along its main axis and `du` across it: the number of steps taken across
/// so far, and the decision value.
pub open spec fn bresenham(dc: int, du: int, k: nat) -> (int, int)
    decreases k,
{
    if k == 0 {
        (0, 2 * du - dc)
    } else {
        let (j, d) = bresenham(dc, du, (k - 1) as nat);
        if d <= 0 {
            (j, d + 2 * du)
        } else {
            (j + 1, d + 2 * du - 2 * dc)
        }
    }
}

/// Length of the line along its main axis.
pub open spec fn line_dc(c0: int, c1: int) -> int {
    if c1 >= c0 {
        c1 - c0
    } else {
        c0 - c1
    }
}

/// Length of the line across its main axis.
pub open spec fn line_du(c0: int, c1: int, u0: int, u1: int) -> int {
    let (b0, b1) = (line_b0(c0, c1, u0, u1), line_b1(c0, c1, u0, u1));
    if b1 >= b0 {
        b1 - b0
    } else {
        b0 - b1
    }
}

/// The number of steps across the main axis taken before step `k`.
pub open spec fn line_j(c0: int, c1: int, u0: int, u1: int, k: nat) -> int {
    bresenham(line_dc(c0, c1), line_du(c0, c1, u0, u1), k).0
}

/// The cross coordinate at step `k`.
pub open spec fn line_u(c0: int, c1: int, u0: int, u1: int, k: nat) -> int {
    let (b0, b1) = (line_b0(c0, c1, u0, u1), line_b1(c0, c1, u0, u1));
    if b1 < b0 {
        b0 - line_j(c0, c1, u0, u1, k)
    } else {
        b0 + line_j(c0, c1, u0, u1, k)
    }
}

/// Pixel `k` of the line, as `(c, u)`; the line has `line_dc + 1` pixels.
pub open spec fn line_pixel(c0: int, c1: int, u0: int, u1: int, k: nat) -> (int, int) {
    (line_a0(c0, c1) + k, line_u(c0, c1, u0, u1, k))
}

/// The values that step `k` of the line computation produces are values of
/// `i32`.
pub open spec fn line_step_fits(c0: int, c1: int, u0: int, u1: int, k: nat) -> bool {
    &&& fits_i32(bresenham(line_dc(c0, c1), line_du(c0, c1, u0, u1), k + 1).1)
    &&& fits_i32(line_u(c0, c1, u0, u1, k + 1))
}

/// Every value that the line computation holds is a value of `i32`.
pub open spec fn line_fits(c0: int, c1: int, u0: int, u1: int) -> bool {
    &&& fits_i32(2 * line_dc(c0, c1))
    &&& fits_i32(line_b1(c0, c1, u0, u1) - line_b0(c0, c1, u0, u1))
    &&& fits_i32(2 * line_du(c0, c1, u0, u1))
    &&& forall|k: nat| k <= line_dc(c0, c1) ==> #[trigger] line_step_fits(c0, c1, u0, u1, k)
}

/// Pixel `k` of the line lies in a `width` × `height` image whose rows
/// start every `stride` pixels, at buffer position `i`; with `transposed`,
/// `c` is the row and `u` the column.
pub open spec fn line_plots(
    width: int,
    height: int,
    stride: int,
    c0: int,
    c1: int,
    u0: int,
    u1: int,
    transposed: bool,
    k: nat,
    i: int,
) -> bool {
    let c = line_a0(c0, c1) + k;
    let u = line_u(c0, c1, u0, u1, k);
    let x = if transposed {
        u
    } else {
        c
    };
    let y = if transposed {
        c
    } else {
        u
    };
    in_image(width, height, x, y) && y * stride + x == i
}

/// `i` is the buffer position of a pixel of the line that lies inside the
/// image.
pub open spec fn line_hits(
    width: int,
    height: int,
    stride: int,
    c0: int,
    c1: int,
    u0: int,
    u1: int,
    transposed: bool,
    i: int,
) -> bool {
    exists|k: nat|
        k <= line_dc(c0, c1) && #[trigger] line_plots(
            width,
            height,
            stride,
            c0,
            c1,
            u0,
            u1,
            transposed,
            k,
            i,
        )
}

/// `i` is the buffer position of a pixel of `canvas` that the line from
/// `(c0, u0)` to `(c1, u1)` draws.
pub open spec fn line_covers(
    canvas: &Canvas,
    c0: int,
    c1: int,
    u0: int,
    u1: int,
    transposed: bool,
    i: int,
) -> bool {
    line_hits(
        canvas.width as i32 as int,
        canvas.height as i32 as int,
        canvas.stride as int,
        c0,
        c1,
        u0,
        u1,
        transposed,
        i,
    )
}

/// Draws the Bresenham line from `(c0, u0)` to `(c1, u1)` in `color`, one
/// pixel per step along the first coordinate; pixels outside the canvas are
/// skipped. With `transposed`, the first coordinate is the row.
pub fn generic_line(
    canvas: &mut Canvas,
    c0: i32,
    c1: i32,
    u0: i32,
    u1: i32,
    transposed: bool,
    color: Color,
)
    requires
        old(canvas).addressable(),
        line_fits(c0 as int, c1 as int, u0 as int, u1 as int),
    ensures
        final(canvas).width == old(canvas).width,
        final(canvas).height == old(canvas).height,
        final(canvas).stride == old(canvas).stride,
        final(canvas).buffer().len() == old(canvas).buffer().len(),
        forall|i: int|
            0 <= i < old(canvas).buffer().len() ==> #[trigger] final(canvas).buffer()[i] == if line_covers(
                &*old(canvas),
                c0 as int,
                c1 as int,
                u0 as int,
                u1 as int,
                transposed,
                i,
            ) {
                color@
            } else {
                old(canvas).buffer()[i]
            },
{
    let ghost (gc0, gc1, gu0, gu1) = (c0 as int, c1 as int, u0 as int, u1 as int);
    let (c0, c1, u0, u1) = if c1 >= c0 {
        (c0, c1, u0, u1)
    } else {
        (c1, c0, u1, u0)
    };
    let inc: i32 = if u1 < u0 {
        -1
    } else {
        1
    };
    let ghost dc_s = line_dc(gc0, gc1);
    let ghost du_s = line_du(gc0, gc1, gu0, gu1);

    let dc = c1 - c0;
    let diff = u1 - u0;
    let du = if diff < 0 {
        -diff
    } else {
        diff
    };
    let two_dc = 2 * dc;
    let two_du = 2 * du;

    let mut u = u0;
    let mut decision = two_du - dc;
    let mut c = c0;
    let ghost mut k: nat = 0;
    let ghost w = old(canvas).width as i32 as int;
    let ghost h = old(canvas).height as i32 as int;
    let ghost s = old(canvas).stride as int;
    let ghost ow = old(canvas).width;
    let ghost oh = old(canvas).height;
    assert(u == line_u(gc0, gc1, gu0, gu1, 0));

    loop
        invariant_except_break
            c == c0 + k,
            k <= dc_s,
            decision == bresenham(dc_s, du_s, k).1,
            line_j(gc0, gc1, gu0, gu1, k) == bresenham(dc_s, du_s, k).0,
            u == line_u(gc0, gc1, gu0, gu1, k),
        invariant
            dc_s == line_dc(gc0, gc1),
            du_s == line_du(gc0, gc1, gu0, gu1),
            w == old(canvas).width as i32 as int,
            h == old(canvas).height as i32 as int,
            s == old(canvas).stride as int,
            ow == old(canvas).width,
            oh == old(canvas).height,
            dc == dc_s,
            du == du_s,
            two_dc == 2 * dc_s,
            two_du == 2 * du_s,
            inc == if line_b1(gc0, gc1, gu0, gu1) < line_b0(gc0, gc1, gu0, gu1) {
                -1int
            } else {
                1int
            },
            line_fits(gc0, gc1, gu0, gu1),
            c0 == line_a0(gc0, gc1),
            c1 == c0 + dc_s,
            u0 == line_b0(gc0, gc1, gu0, gu1),
            u1 == line_b1(gc0, gc1, gu0, gu1),
            canvas.addressable(),
            canvas.width == ow,
            canvas.height == oh,
            canvas.stride == s,
            canvas.buffer().len() == old(canvas).buffer().len(),
            forall|i: int|
                0 <= i < old(canvas).buffer().len() ==> #[trigger] canvas.buffer()[i] == if exists|
                    q: nat,
                | q < k && #[trigger] line_plots(w, h, s, gc0, gc1, gu0, gu1, transposed, q, i) {
                    color@
                } else {
                    old(canvas).buffer()[i]
                },
        ensures
            k == dc_s + 1,
        decreases dc_s - k,
    {
        let ghost before = canvas.buffer();
        if transposed {
            put_pixel(canvas, u, c, color);
        } else {
            put_pixel(canvas, c, u, color);
        }
        proof {
            assert forall|i: int| 0 <= i < old(canvas).buffer().len() implies #[trigger] canvas.buffer()[i]
                == if exists|q: nat|
                q < k + 1 && #[trigger] line_plots(w, h, s, gc0, gc1, gu0, gu1, transposed, q, i) {
                color@
            } else {
                old(canvas).buffer()[i]
            } by {
                if line_plots(w, h, s, gc0, gc1, gu0, gu1, transposed, k, i) {
                    assert(canvas.buffer()[i] == color@);
                } else {
                    assert(canvas.buffer()[i] == before[i]);
                    if exists|q: nat|
                        q < k + 1 && #[trigger] line_plots(w, h, s, gc0, gc1, gu0, gu1, transposed, q, i) {
                        let q = choose|q: nat|
                            q < k + 1 && #[trigger] line_plots(
                                w,
                                h,
                                s,
                                gc0,
                                gc1,
                                gu0,
                                gu1,
                                transposed,
                                q,
                                i,
                            );
                        assert(q < k);
                    }
                }
            }
            assert(line_step_fits(gc0, gc1, gu0, gu1, k));
        }
        if decision <= 0 {
            decision += two_du;
        } else {
            decision += two_du - two_dc;
            u += inc;
        }
        proof {
            k = k + 1;
        }
        if c == c1 {
            break;
        }
        c += 1;
    }
    proof {
        assert forall|i: int| 0 <= i < old(canvas).buffer().len() implies #[trigger] canvas.buffer()[i]
            == if line_hits(w, h, s, gc0, gc1, gu0, gu1, transposed, i) {
            color@
        } else {
            old(canvas).buffer()[i]
        } by {
            if line_hits(w, h, s, gc0, gc1, gu0, gu1, transposed, i) {
                let q = choose|q: nat|
                    q <= line_dc(gc0, gc1) && #[trigger] line_plots(
                        w,
                        h,
                        s,
                        gc0,
                        gc1,
                        gu0,
                        gu1,
                        transposed,
                        q,
                        i,
                    );
                assert(q < k);
            }
        }
    }
}

/// Whether drawing the line from `(c0, u0)` to `(c1, u1)` keeps every value
/// that it computes in `i32`; `generic_line` may be called exactly when this
/// holds.
pub fn line_in_range(c0: i32, c1: i32, u0: i32, u1: i32) -> (b: bool)
    ensures
        b == line_fits(c0 as int, c1 as int, u0 as int, u1 as int),
{
    let ghost (gc0, gc1, gu0, gu1) = (c0 as int, c1 as int, u0 as int, u1 as int);
    let (a0, a1, b0, b1) = if c1 >= c0 {
        (c0 as i64, c1 as i64, u0 as i64, u1 as i64)
    } else {
        (c1 as i64, c0 as i64, u1 as i64, u0 as i64)
    };
    let dc = a1 - a0;
    let diff = b1 - b0;
    let du = if diff < 0 {
        -diff
    } else {
        diff
    };
    let ghost dc_s = line_dc(gc0, gc1);
    let ghost du_s = line_du(gc0, gc1, gu0, gu1);
    assert(dc == dc_s && du == du_s);
    if 2 * dc > i32::MAX as i64 || diff > i32::MAX as i64 || diff < i32::MIN as i64 || 2 * du
        > i32::MAX as i64 {
        return false;
    }
    let mut k: i64 = 0;
    let mut j: i64 = 0;
    let mut d: i64 = 2 * du - dc;
    while k <= dc
        invariant
            0 <= k <= dc + 1,
            gc0 == c0 as int,
            gc1 == c1 as int,
            gu0 == u0 as int,
            gu1 == u1 as int,
            i32::MIN <= b0 <= i32::MAX,
            dc <= i32::MAX,
            dc == dc_s,
            du == du_s,
            0 <= 2 * dc <= i32::MAX,
            0 <= 2 * du <= i32::MAX,
            dc_s == line_dc(gc0, gc1),
            du_s == line_du(gc0, gc1, gu0, gu1),
            b0 == line_b0(gc0, gc1, gu0, gu1),
            b1 == line_b1(gc0, gc1, gu0, gu1),
            fits_i32(b1 - b0),
            j == bresenham(dc_s, du_s, k as nat).0,
            d == bresenham(dc_s, du_s, k as nat).1,
            0 <= j <= k,
            k == 0 || fits_i32(d as int),
            forall|q: nat| q < k ==> #[trigger] line_step_fits(gc0, gc1, gu0, gu1, q),
        decreases dc + 1 - k,
    {
        assert(bresenham(dc_s, du_s, (k + 1) as nat) == {
            let (j0, d0) = bresenham(dc_s, du_s, k as nat);
            if d0 <= 0 {
                (j0, d0 + 2 * du_s)
            } else {
                (j0 + 1, d0 + 2 * du_s - 2 * dc_s)
            }
        });
        if d <= 0 {
            d = d + 2 * du;
        } else {
            d = d + 2 * du - 2 * dc;
            j = j + 1;
        }
        let u = if b1 < b0 {
            b0 - j
        } else {
            b0 + j
        };
        assert(u == line_u(gc0, gc1, gu0, gu1, (k + 1) as nat));
        if d > i32::MAX as i64 || d < i32::MIN as i64 || u > i32::MAX as i64 || u < i32::MIN as i64 {
            assert(!line_step_fits(gc0, gc1, gu0, gu1, k as nat));
            return false;
        }
        assert(line_step_fits(gc0, gc1, gu0, gu1, k as nat));
        k = k + 1;
    }
    true
}

/// The state of the decision after `k` steps, for a line no steeper than
/// its main axis: the decision records how far the drawn cross coordinate
/// lies from the ideal line, and stays between `2 du - 2 dc` and `2 du`.
proof fn lemma_bresenham(dc: int, du: int, k: nat)
    requires
        0 <= du <= dc,
    ensures
        ({
            let (j, d) = bresenham(dc, du, k);
            &&& d == 2 * du * (k + 1) - dc - 2 * dc * j
            &&& 2 * du - 2 * dc <= d <= 2 * du
            &&& 0 <= j <= k
        }),
    decreases k,
{
    if k > 0 {
        let k0 = (k - 1) as nat;
        lemma_bresenham(dc, du, k0);
        let (j0, d0) = bresenham(dc, du, k0);
        assert(2 * du * (k0 + 1) + 2 * du == 2 * du * (k + 1)) by (nonlinear_arith)
            requires
                k == k0 + 1,
        ;
        assert(2 * dc * j0 + 2 * dc == 2 * dc * (j0 + 1)) by (nonlinear_arith);
        assert(bresenham(dc, du, k) == if d0 <= 0 {
            (j0, d0 + 2 * du)
        } else {
            (j0 + 1, d0 + 2 * du - 2 * dc)
        });
    } else {
        assert(2 * du * (0 + 1) - dc - 2 * dc * 0 == 2 * du - dc) by (nonlinear_arith);
    }
}

/// The pixels that a line covers are exactly its pixels `0 ..= line_dc`
/// that lie inside the canvas: each covered buffer position is one of them,
/// whose first coordinate lies between the two ends (none beyond the far
/// end), and each of them is covered.
pub proof fn line_covers_exactly_its_pixels(
    canvas: &Canvas,
    c0: int,
    c1: int,
    u0: int,
    u1: int,
    transposed: bool,
    i: int,
)
    ensures
        line_covers(canvas, c0, c1, u0, u1, transposed, i) ==> exists|k: nat|
            {
                let (c, u) = #[trigger] line_pixel(c0, c1, u0, u1, k);
                let (x, y) = if transposed {
                    (u, c)
                } else {
                    (c, u)
                };
                &&& k <= line_dc(c0, c1)
                &&& (c0 <= c <= c1 || c1 <= c <= c0)
                &&& canvas.visible(x, y)
                &&& canvas.index_of(x, y) == i
            },
        forall|k: nat|
            k <= line_dc(c0, c1) ==> {
                let (c, u) = #[trigger] line_pixel(c0, c1, u0, u1, k);
                let (x, y) = if transposed {
                    (u, c)
                } else {
                    (c, u)
                };
                canvas.visible(x, y) ==> line_covers(canvas, c0, c1, u0, u1, transposed, canvas.index_of(x, y))
            },
{
    let w = canvas.width as i32 as int;
    let h = canvas.height as i32 as int;
    let s = canvas.stride as int;
    if line_covers(canvas, c0, c1, u0, u1, transposed, i) {
        let k = choose|k: nat|
            k <= line_dc(c0, c1) && #[trigger] line_plots(w, h, s, c0, c1, u0, u1, transposed, k, i);
        let _ = line_pixel(c0, c1, u0, u1, k);
    }
    assert forall|k: nat| k <= line_dc(c0, c1) implies {
        let (c, u) = #[trigger] line_pixel(c0, c1, u0, u1, k);
        let (x, y) = if transposed {
            (u, c)
        } else {
            (c, u)
        };
        canvas.visible(x, y) ==> line_covers(canvas, c0, c1, u0, u1, transposed, canvas.index_of(x, y))
    } by {
        let (c, u) = line_pixel(c0, c1, u0, u1, k);
        let (x, y) = if transposed {
            (u, c)
        } else {
            (c, u)
        };
        if canvas.visible(x, y) {
            assert(line_plots(w, h, s, c0, c1, u0, u1, transposed, k, canvas.index_of(x, y)));
        }
    }
}

/// The first pixel of a line is its end with the smaller first coordinate.
pub proof fn line_starts_at_an_end(c0: int, c1: int, u0: int, u1: int)
    ensures
        line_pixel(c0, c1, u0, u1, 0) == if c1 >= c0 {
            (c0, u0)
        } else {
            (c1, u1)
        },
{
}

/// Consecutive pixels of a line are neighbours: each step advances the first
/// coordinate by one and moves the cross coordinate by at most one, towards
/// the far end.
pub proof fn line_is_connected(c0: int, c1: int, u0: int, u1: int, k: nat)
    ensures
        line_pixel(c0, c1, u0, u1, k + 1).0 == line_pixel(c0, c1, u0, u1, k).0 + 1,
        line_j(c0, c1, u0, u1, k + 1) == line_j(c0, c1, u0, u1, k) || line_j(c0, c1, u0, u1, k + 1)
            == line_j(c0, c1, u0, u1, k) + 1,
        line_b0(c0, c1, u0, u1) <= line_b1(c0, c1, u0, u1) ==> line_u(c0, c1, u0, u1, k)
            <= line_u(c0, c1, u0, u1, k + 1) <= line_u(c0, c1, u0, u1, k) + 1,
        line_b1(c0, c1, u0, u1) < line_b0(c0, c1, u0, u1) ==> line_u(c0, c1, u0, u1, k) - 1
            <= line_u(c0, c1, u0, u1, k + 1) <= line_u(c0, c1, u0, u1, k),
{
    assert(bresenham(line_dc(c0, c1), line_du(c0, c1, u0, u1), k + 1) == {
        let (j0, d0) = bresenham(line_dc(c0, c1), line_du(c0, c1, u0, u1), k);
        if d0 <= 0 {
            (j0, d0 + 2 * line_du(c0, c1, u0, u1))
        } else {
            (j0 + 1, d0 + 2 * line_du(c0, c1, u0, u1) - 2 * line_dc(c0, c1))
        }
    });
}

/// For a line no steeper than its main axis, every pixel lies within half a
/// pixel of the ideal line: after `k` steps the cross distance travelled,
/// `j`, satisfies `|j - k * du / dc| <= 1/2`.
pub proof fn line_stays_near_ideal(c0: int, c1: int, u0: int, u1: int, k: nat)
    requires
        line_du(c0, c1, u0, u1) <= line_dc(c0, c1),
        k <= line_dc(c0, c1),
    ensures
        2 * line_du(c0, c1, u0, u1) * k - line_dc(c0, c1) <= 2 * line_dc(c0, c1) * line_j(
            c0,
            c1,
            u0,
            u1,
            k,
        ) <= 2 * line_du(c0, c1, u0, u1) * k + line_dc(c0, c1),
{
    let dc = line_dc(c0, c1);
    let du = line_du(c0, c1, u0, u1);
    lemma_bresenham(dc, du, k);
    assert(2 * du * (k + 1) == 2 * du * k + 2 * du) by (nonlinear_arith);
}

/// A line no steeper than its main axis ends exactly at its far end.
pub proof fn line_ends_at_other_end(c0: int, c1: int, u0: int, u1: int)
    requires
        line_du(c0, c1, u0, u1) <= line_dc(c0, c1),
    ensures
        line_pixel(c0, c1, u0, u1, line_dc(c0, c1) as nat) == if c1 >= c0 {
            (c1, u1)
        } else {
            (c0, u0)
        },
{
    let dc = line_dc(c0, c1);
    let du = line_du(c0, c1, u0, u1);
    let j = line_j(c0, c1, u0, u1, dc as nat);
    line_stays_near_ideal(c0, c1, u0, u1, dc as nat);
    if dc > 0 {
        assert(j == du) by (nonlinear_arith)
            requires
                dc > 0,
                2 * du * dc - dc <= 2 * dc * j <= 2 * du * dc + dc,
        {
            assert(dc * (2 * du - 1) <= dc * (2 * j)) by (nonlinear_arith)
                requires 2 * du * dc - dc <= 2 * dc * j;
            assert(dc * (2 * j) <= dc * (2 * du + 1)) by (nonlinear_arith)
                requires 2 * dc * j <= 2 * du * dc + dc;
        }
    } else {
        lemma_bresenham(dc, du, 0);
    }
}

/// A byte sum capped at 255.
pub open spec fn saturated(v: int) -> int {
    if v > 255 {
        255
    } else {
        v
    }
}

/// The alpha that a coverage value gives to `color`: the coverage scales
/// the color's own alpha, and the result is read as a byte.
pub open spec fn covered_alpha(coverage: int, color: u32) -> int {
    (coverage * alpha_of(color) / 255) % 256
}

/// Blends `color`, with its alpha scaled by `coverage`, over pixel `(x, y)`
/// when it lies inside the canvas; does nothing otherwise.
pub fn plot(canvas: &mut Canvas, color: Color, x: i32, y: i32, coverage: u32)
    requires
        old(canvas).addressable(),
        coverage * alpha_of(color@) <= u32::MAX,
    ensures
        final(canvas).width == old(canvas).width,
        final(canvas).height == old(canvas).height,
        final(canvas).stride == old(canvas).stride,
        final(canvas).buffer().len() == old(canvas).buffer().len(),
        final(canvas).buffer() == if old(canvas).visible(x as int, y as int) {
            let i = old(canvas).index_of(x as int, y as int);
            old(canvas).buffer().update(
                i,
                blend_of(
                    old(canvas).buffer()[i],
                    with_alpha_of(color@, covered_alpha(coverage as int, color@)) as u32,
                ) as u32,
            )
        } else {
            old(canvas).buffer()
        },
{
    if x < 0 || y < 0 || x >= canvas.width() || y >= canvas.height() {
        return;
    }
    proof {
        canvas.lemma_index_in_buffer(x as int, y as int);
    }
    let pixel = canvas.at_mut(x, y);
    let q = (coverage * color.alpha() as u32) / 255;
    let alpha = q as u8;
    proof {
        assert(q as u8 == q % 256) by (bit_vector);
    }
    *pixel = Color::new(*pixel).blend(color.with_alpha(alpha)).as_u32();
}

/// Blends `color` over row `y` of the canvas, pixel `x` of the row with the
/// color's alpha scaled by the coverage `scanline[x]`.
#[verifier::rlimit(40)]
pub fn composite_scanline(canvas: &mut Canvas, y: usize, scanline: &[u8], color: Color)
    requires
        (y + 1) * old(canvas).stride <= old(canvas).buffer().len(),
        scanline@.len() <= old(canvas).stride,
    ensures
        final(canvas).width == old(canvas).width,
        final(canvas).height == old(canvas).height,
        final(canvas).stride == old(canvas).stride,
        final(canvas).buffer().len() == old(canvas).buffer().len(),
        forall|i: int|
            0 <= i < old(canvas).buffer().len() ==> #[trigger] final(canvas).buffer()[i] == {
                let start = y * old(canvas).stride;
                if start <= i < start + scanline@.len() {
                    blend_of(
                        old(canvas).buffer()[i],
                        with_alpha_of(
                            color@,
                            covered_alpha(scanline@[i - start] as int, color@),
                        ) as u32,
                    ) as u32
                } else {
                    old(canvas).buffer()[i]
                }
            },
{
    let _n = canvas.pixels.len();
    proof {
        let st = canvas.stride as int;
        assert(y * st + st == (y + 1) * st && 0 <= y * st) by (nonlinear_arith)
            requires
                0 <= y,
                0 <= st,
        ;
    }
    let start = y * canvas.stride as usize;
    let a = color.alpha() as u32;
    let mut x: usize = 0;
    while x < scanline.len()
        invariant
            start == y * old(canvas).stride,
            start + scanline@.len() <= old(canvas).buffer().len(),
            old(canvas).buffer().len() <= usize::MAX,
            x <= scanline@.len(),
            a == alpha_of(color@),
            canvas.width == old(canvas).width,
            canvas.height == old(canvas).height,
            canvas.stride == old(canvas).stride,
            canvas.buffer().len() == old(canvas).buffer().len(),
            forall|i: int|
                0 <= i < old(canvas).buffer().len() ==> #[trigger] canvas.buffer()[i] == if start <= i
                    < start + x {
                    blend_of(
                        old(canvas).buffer()[i],
                        with_alpha_of(
                            color@,
                            covered_alpha(scanline@[i - start] as int, color@),
                        ) as u32,
                    ) as u32
                } else {
                    old(canvas).buffer()[i]
                },
        decreases scanline@.len() - x,
    {
        let cov = scanline[x] as u32;
        proof {
            assert(cov * a <= 255 * 255) by (nonlinear_arith)
                requires
                    cov <= 255,
                    a <= 255,
            ;
        }
        let alpha = ((cov * a) / 255) as u8;
        let old_pixel = Color::new(canvas.pixels[start + x]);
        let ghost prev = canvas.buffer();
        canvas.pixels[start + x] = old_pixel.blend(color.with_alpha(alpha)).as_u32();
        proof {
            assert(canvas.buffer() == prev.update(start + x, canvas.buffer()[start + x as int]));
        }
        x += 1;
    }
}

/// An edge crossing the current scanline, as the span filler reads it: the
/// pixel column where it crosses, the coverage it gives to that pixel when
/// it opens a span and when it closes one, and its winding direction.
#[derive(Clone, Copy)]
pub struct SpanEdge {
    pub x: i32,
    pub lead: u8,
    pub trail: u8,
    pub direction: i32,
}

/// Winding number after the first `n` edges.
pub open spec fn winding_after(edges: Seq<SpanEdge>, n: nat) -> int
    decreases n,
{
    if n == 0 || n > edges.len() {
        0
    } else {
        winding_after(edges, (n - 1) as nat) + edges[n - 1].direction
    }
}

/// Adds the coverage of the span from column `x0` to column `x1` to
/// `scan`: `w0` to the pixel at `x0`, `w1` to the pixel at `x1`, and `full`
/// to every pixel between them, each sum capped at 255; the parts of the
/// span outside `0..width` are left out.
pub open spec fn add_span(scan: Seq<u8>, x0: int, x1: int, w0: int, w1: int, width: int, full: int) -> Seq<u8> {
    if x1 >= 0 && x0 < width {
        let s1 = if x0 >= 0 {
            scan.update(x0, saturated(scan[x0] + w0) as u8)
        } else {
            scan
        };
        let lo = if x0 >= 0 {
            x0
        } else {
            -1
        };
        let s2 = if x1 < width {
            s1.update(x1, saturated(s1[x1] + w1) as u8)
        } else {
            s1
        };
        let hi = if x1 < width {
            x1
        } else {
            width
        };
        Seq::new(
            s2.len(),
            |i: int|
                if lo < i < hi {
                    saturated(s2[i] + full) as u8
                } else {
                    s2[i]
                },
        )
    } else {
        scan
    }
}

/// The scanline, and the column and lead coverage of the edge that opened
/// the current span, after the first `n` edges (nonzero winding rule).
pub open spec fn spans_after(
    edges: Seq<SpanEdge>,
    n: nat,
    scan: Seq<u8>,
    width: int,
    full: int,
) -> (Seq<u8>, int, int)
    decreases n,
{
    if n == 0 || n > edges.len() {
        (scan, 0, 0)
    } else {
        let (s, ox, ow) = spans_after(edges, (n - 1) as nat, scan, width, full);
        let e = edges[n - 1];
        if winding_after(edges, (n - 1) as nat) == 0 {
            (s, e.x as int, e.lead as int)
        } else if winding_after(edges, n) == 0 {
            (add_span(s, ox, e.x as int, ow, e.trail as int, width, full), ox, ow)
        } else {
            (s, ox, ow)
        }
    }
}

/// Adds to `scanline` the coverage of the spans that the crossing `edges`,
/// sorted by column, enclose under the nonzero winding rule.
pub fn draw_active_edges(edges: &[SpanEdge], scanline: &mut [u8], width: i32, full: u8)
    requires
        width <= old(scanline)@.len(),
        forall|n: nat| n <= edges@.len() ==> fits_i32(#[trigger] winding_after(edges@, n)),
    ensures
        final(scanline)@ == spans_after(
            edges@,
            edges@.len(),
            old(scanline)@,
            width as int,
            full as int,
        ).0,
{
    let mut current_x: i32 = 0;
    let mut current_lead: u8 = 0;
    let mut winding: i32 = 0;
    let mut k: usize = 0;
    while k < edges.len()
        invariant
            k <= edges@.len(),
            width <= scanline@.len(),
            scanline@.len() == old(scanline)@.len(),
            forall|n: nat| n <= edges@.len() ==> fits_i32(#[trigger] winding_after(edges@, n)),
            winding == winding_after(edges@, k as nat),
            (scanline@, current_x as int, current_lead as int) == spans_after(
                edges@,
                k as nat,
                old(scanline)@,
                width as int,
                full as int,
            ),
        decreases edges@.len() - k,
    {
        let edge = edges[k];
        proof {
            assert(fits_i32(winding_after(edges@, (k + 1) as nat)));
        }
        if winding == 0 {
            current_x = edge.x;
            current_lead = edge.lead;
            winding += edge.direction;
        } else {
            winding += edge.direction;
            if winding == 0 {
                add_span_in_place(scanline, current_x, edge.x, current_lead, edge.trail, width, full);
            }
        }
        k += 1;
    }
}

/// A span opens at the edge where the winding number leaves zero: while the
/// winding stays nonzero after edge `j`, the open span starts at edge `j`'s
/// column with edge `j`'s lead coverage, and when edge `k - 1` brings the
/// winding back to zero, the span that it adds runs from edge `j` to edge
/// `k - 1` and is the only change to the scanline.
pub proof fn span_opens_where_winding_leaves_zero(
    edges: Seq<SpanEdge>,
    scan: Seq<u8>,
    width: int,
    full: int,
    j: nat,
    k: nat,
)
    requires
        j < k <= edges.len(),
        winding_after(edges, j) == 0,
        forall|m: nat| j < m < k ==> #[trigger] winding_after(edges, m) != 0,
    ensures
        spans_after(edges, k, scan, width, full).1 == edges[j as int].x,
        spans_after(edges, k, scan, width, full).2 == edges[j as int].lead,
        k >= j + 2 && winding_after(edges, k) == 0 ==> spans_after(edges, k, scan, width, full).0
            == add_span(
            spans_after(edges, (k - 1) as nat, scan, width, full).0,
            edges[j as int].x as int,
            edges[k - 1].x as int,
            edges[j as int].lead as int,
            edges[k - 1].trail as int,
            width,
            full,
        ),
        spans_after(edges, j + 1, scan, width, full).0 == spans_after(edges, j, scan, width, full).0,
        k >= j + 2 && winding_after(edges, k) != 0 ==> spans_after(edges, k, scan, width, full).0
            == spans_after(edges, (k - 1) as nat, scan, width, full).0,
    decreases k - j,
{
    if k > j + 1 {
        span_opens_where_winding_leaves_zero(edges, scan, width, full, j, (k - 1) as nat);
        assert(winding_after(edges, (k - 1) as nat) != 0);
    }
}

/// A span from column `x0` to a later column `x1` adds `w0` to the pixel at
/// `x0`, `w1` to the pixel at `x1` and `full` to each pixel between them,
/// each sum capped at 255, and changes no other pixel; only the columns
/// `0 .. width` are touched.
pub proof fn span_covers_its_columns(scan: Seq<u8>, x0: int, x1: int, w0: u8, w1: u8, width: int, full: u8)
    requires
        x0 < x1,
        0 <= width <= scan.len(),
    ensures
        add_span(scan, x0, x1, w0 as int, w1 as int, width, full as int).len() == scan.len(),
        forall|i: int|
            0 <= i < scan.len() ==> #[trigger] add_span(
                scan,
                x0,
                x1,
                w0 as int,
                w1 as int,
                width,
                full as int,
            )[i] == if i == x0 && i < width {
                saturated(scan[i] + w0) as u8
            } else if i == x1 && i < width {
                saturated(scan[i] + w1) as u8
            } else if x0 < i < x1 && i < width {
                saturated(scan[i] + full) as u8
            } else {
                scan[i]
            },
{
}

/// Adds the coverage of one span to the scanline, as `add_span` describes.
fn add_span_in_place(scanline: &mut [u8], x0: i32, x1: i32, w0: u8, w1: u8, width: i32, full: u8)
    requires
        width <= old(scanline)@.len(),
    ensures
        final(scanline)@ == add_span(
            old(scanline)@,
            x0 as int,
            x1 as int,
            w0 as int,
            w1 as int,
            width as int,
            full as int,
        ),
{
    if x1 >= 0 && x0 < width {
        let mut lo = x0;
        let mut hi = x1;
        let ghost s0 = scanline@;
        let ghost s1 = if x0 >= 0 {
            s0.update(x0 as int, saturated(s0[x0 as int] + w0) as u8)
        } else {
            s0
        };
        if x0 >= 0 {
            let i = x0 as usize;
            scanline[i] = scanline[i].saturating_add(w0);
        } else {
            lo = -1;
        }
        if x1 < width {
            let i = x1 as usize;
            scanline[i] = scanline[i].saturating_add(w1);
        } else {
            hi = width;
        }
        let ghost s2 = scanline@;
        assert(s2 == if x1 < width {
            s1.update(x1 as int, saturated(s1[x1 as int] + w1) as u8)
        } else {
            s1
        });
        let mut x = lo + 1;
        while x < hi
            invariant
                lo + 1 <= x,
                lo < hi ==> x <= hi,
                lo >= hi ==> x == lo + 1,
                -1 <= lo,
                hi <= width,
                width <= scanline@.len(),
                scanline@.len() == s2.len(),
                forall|i: int|
                    0 <= i < s2.len() ==> #[trigger] scanline@[i] == if lo < i < x {
                        saturated(s2[i] + full) as u8
                    } else {
                        s2[i]
                    },
            decreases hi - x,
        {
            let i = x as usize;
            scanline[i] = scanline[i].saturating_add(full);
            x += 1;
        }
        proof {
            let target = add_span(
                old(scanline)@,
                x0 as int,
                x1 as int,
                w0 as int,
                w1 as int,
                width as int,
                full as int,
            );
            assert(x == hi || hi <= lo);
            let lo_s: int = if x0 >= 0 { x0 as int } else { -1 };
            let hi_s: int = if x1 < width { x1 as int } else { width as int };
            assert(lo == lo_s && hi == hi_s);
            assert(target == Seq::new(s2.len(), |i: int| if lo_s < i < hi_s {
                saturated(s2[i] + full) as u8
            } else {
                s2[i]
            }));
            assert forall|i: int| 0 <= i < scanline@.len() implies scanline@[i] == target[i] by {
                assert(scanline@[i] == if lo < i < x {
                    saturated(s2[i] + full) as u8
                } else {
                    s2[i]
                });
            }
            assert(scanline@ =~= target);
        }
    }
}

/// Sum of the run lengths.
pub open spec fn runs_total(runs: Seq<usize>) -> int
    decreases runs.len(),
{
    if runs.len() == 0 {
        0
    } else {
        runs_total(runs.drop_last()) + runs.last()
    }
}

/// The closed ring of `n` edges through the points `offset .. offset + n`:
/// each point to the next, and the last one back to the first.
pub open spec fn run_cycle(offset: int, n: int) -> Seq<(usize, usize)> {
    Seq::new(
        n as nat,
        |i: int|
            (
                (offset + i) as usize,
                (if i + 1 < n {
                    offset + i + 1
                } else {
                    offset
                }) as usize,
            ),
    )
}

/// The edges of a polygon whose consecutive runs of points are closed rings.
pub open spec fn run_edges(runs: Seq<usize>) -> Seq<(usize, usize)>
    decreases runs.len(),
{
    if runs.len() == 0 {
        seq![]
    } else {
        run_edges(runs.drop_last()) + run_cycle(runs_total(runs.drop_last()), runs.last() as int)
    }
}

proof fn lemma_runs_total_prefix(runs: Seq<usize>, r: int)
    requires
        0 <= r <= runs.len(),
    ensures
        0 <= runs_total(runs.take(r)) <= runs_total(runs),
    decreases runs.len() - r,
{
    if r < runs.len() {
        lemma_runs_total_prefix(runs, r + 1);
        assert(runs.take(r + 1).drop_last() =~= runs.take(r));
    } else {
        assert(runs.take(r) =~= runs);
    }
    lemma_runs_total_nonneg(runs.take(r));
}

proof fn lemma_runs_total_nonneg(runs: Seq<usize>)
    ensures
        runs_total(runs) >= 0,
    decreases runs.len(),
{
    if runs.len() > 0 {
        lemma_runs_total_nonneg(runs.drop_last());
    }
}

/// The edges of the polygon whose points come in runs of `runs[0]`,
/// `runs[1]`, ... consecutive points, each run a closed ring, as pairs of
/// point indices.
pub fn polygon_edges(runs: &[usize]) -> (edges: Vec<(usize, usize)>)
    requires
        runs@.len() > 0,
        forall|r: int| 0 <= r < runs@.len() ==> #[trigger] runs@[r] >= 3,
        runs_total(runs@) <= usize::MAX,
    ensures
        edges@ == run_edges(runs@),
{
    let mut edges: Vec<(usize, usize)> = Vec::new();
    let mut offset: usize = 0;
    let mut r: usize = 0;
    while r < runs.len()
        invariant
            r <= runs@.len(),
            forall|q: int| 0 <= q < runs@.len() ==> #[trigger] runs@[q] >= 3,
            runs_total(runs@) <= usize::MAX,
            offset == runs_total(runs@.take(r as int)),
            edges@ == run_edges(runs@.take(r as int)),
        decreases runs@.len() - r,
    {
        proof {
            lemma_runs_total_prefix(runs@, r + 1);
            assert(runs@.take(r + 1).drop_last() =~= runs@.take(r as int));
        }
        let length = runs[r];
        let end = offset + length;
        let ghost base = edges@;
        let mut i = offset;
        while i < end - 1
            invariant
                offset <= i <= end - 1,
                end == offset + length,
                length >= 3,
                edges@ == base + run_cycle(offset as int, length as int).take(i - offset),
            decreases end - 1 - i,
        {
            edges.push((i, i + 1));
            proof {
                assert(run_cycle(offset as int, length as int).take(i + 1 - offset) =~= run_cycle(
                    offset as int,
                    length as int,
                ).take(i - offset).push((i, (i + 1) as usize)));
            }
            i += 1;
        }
        edges.push((end - 1, offset));
        proof {
            assert(run_cycle(offset as int, length as int) =~= run_cycle(
                offset as int,
                length as int,
            ).take(length - 1).push(((end - 1) as usize, offset)));
            assert(edges@ =~= run_edges(runs@.take(r + 1)));
        }
        offset = end;
        r += 1;
    }
    proof {
        assert(runs@.take(r as int) =~= runs@);
    }
    edges
}

/// The ring of edges through the points `start ..= end`: each point to the
/// next, and `end` back to `start`; when `start > end`, that last edge only.
pub open spec fn span_cycle(start: int, end: int) -> Seq<(usize, usize)> {
    if start <= end {
        run_cycle(start, end - start + 1)
    } else {
        seq![(end as usize, start as usize)]
    }
}

/// The edges of a polygon whose runs are given by their first and last
/// point indices.
pub open spec fn span_edges(runs: Seq<(usize, usize)>) -> Seq<(usize, usize)>
    decreases runs.len(),
{
    if runs.len() == 0 {
        seq![]
    } else {
        span_edges(runs.drop_last()) + span_cycle(runs.last().0 as int, runs.last().1 as int)
    }
}

/// The edges of the polygon whose runs of points are `start ..= end` for
/// each `(start, end)` of `runs`, each run a closed ring, as pairs of point
/// indices.
pub fn polygon_span_edges(runs: &[(usize, usize)]) -> (edges: Vec<(usize, usize)>)
    ensures
        edges@ == span_edges(runs@),
{
    let mut edges: Vec<(usize, usize)> = Vec::new();
    let mut r: usize = 0;
    while r < runs.len()
        invariant
            r <= runs@.len(),
            edges@ == span_edges(runs@.take(r as int)),
        decreases runs@.len() - r,
    {
        proof {
            assert(runs@.take(r + 1).drop_last() =~= runs@.take(r as int));
        }
        let (start, end) = runs[r];
        let ghost base = edges@;
        let mut i = start;
        while i < end
            invariant
                start <= end ==> start <= i <= end,
                start > end ==> i == start,
                start <= end ==> edges@ == base + run_cycle(start as int, end - start + 1).take(
                    i - start,
                ),
                start > end ==> edges@ == base,
            decreases end - i,
        {
            edges.push((i, i + 1));
            proof {
                assert(run_cycle(start as int, end - start + 1).take(i + 1 - start) =~= run_cycle(
                    start as int,
                    end - start + 1,
                ).take(i - start).push((i, (i + 1) as usize)));
            }
            i += 1;
        }
        edges.push((end, start));
        proof {
            if start <= end {
                assert(run_cycle(start as int, end - start + 1) =~= run_cycle(
                    start as int,
                    end - start + 1,
                ).take(end - start).push((end, start)));
            }
            assert(runs@.take(r + 1).last() == (start, end));
            assert(edges@ =~= span_edges(runs@.take(r + 1)));
        }
        r += 1;
    }
    proof {
        assert(runs@.take(r as int) =~= runs@);
    }
    edges
}

/// The polygon has one edge per point; edge `k` starts at point `k`, and
/// every edge ends at a point of the polygon.
pub proof fn polygon_edges_laws(runs: Seq<usize>)
    requires
        runs_total(runs) <= usize::MAX,
    ensures
        run_edges(runs).len() == runs_total(runs),
        forall|k: int|
            #![trigger run_edges(runs)[k]]
            0 <= k < run_edges(runs).len() ==> run_edges(runs)[k].0 == k && run_edges(runs)[k].1
                < runs_total(runs),
    decreases runs.len(),
{
    lemma_runs_total_nonneg(runs);
    if runs.len() > 0 {
        let prev = runs.drop_last();
        lemma_runs_total_nonneg(prev);
        polygon_edges_laws(prev);
        let t = runs_total(prev);
        let n = runs.last() as int;
        assert forall|k: int|
            #![trigger run_edges(runs)[k]]
            0 <= k < run_edges(runs).len() implies run_edges(runs)[k].0 == k && run_edges(runs)[k].1
                < runs_total(runs) by {
            assert(run_edges(runs) == run_edges(prev) + run_cycle(t, n));
            assert(run_edges(prev).len() == t);
            assert(runs_total(runs) == t + n);
            if k >= t {
                assert(run_edges(runs)[k] == run_cycle(t, n)[k - t]);
                assert(k - t < n);
                assert(run_cycle(t, n)[k - t].0 == (t + (k - t)) as usize);
                assert(k <= usize::MAX);
                assert(run_edges(runs)[k].0 == k);
                if k - t + 1 < n {
                    assert(run_cycle(t, n)[k - t].1 == (t + (k - t) + 1) as usize);
                } else {
                    assert(run_cycle(t, n)[k - t].1 == t as usize);
                }
                assert(run_edges(runs)[k].1 < t + n);
            } else {
                assert(run_edges(runs)[k] == run_edges(prev)[k]);
                assert(run_edges(prev)[k].0 == k);
                assert(run_edges(prev)[k].1 < t);
            }
        }
        assert(run_edges(runs).len() == runs_total(runs));
    } else {
        assert(run_edges(runs).len() == 0);
    }
}

/// The alpha that a hairline of the given width in 1/256 pixels gets:
/// `255 * scale / 256`, rounded down, read as a byte.
pub fn hairline_alpha(scale: i32) -> (a: u8)
    requires
        fits_i32(255 * scale),
    ensures
        a as int == (255 * scale) / 256 % 256,
{
    let v = 255 * scale;
    let shifted = v >> 8i32;
    proof {
        assert(shifted == v / 256) by (bit_vector)
            requires
                shifted == v >> 8i32,
        ;
        assert(shifted as u8 == shifted % 256) by (bit_vector);
    }
    shifted as u8
}

/// Blending a color with no coverage leaves a pixel as it was; an opaque
/// color with full coverage replaces the pixel's color channels and keeps
/// its alpha.
pub proof fn coverage_laws(pixel: u32, color: u32)
    ensures
        blend_of(pixel, with_alpha_of(color, covered_alpha(0, color)) as u32) == pixel,
        alpha_of(color) == 255 ==> {
            let c = blend_of(pixel, with_alpha_of(color, covered_alpha(255, color)) as u32) as u32;
            &&& red_of(c) == red_of(color)
            &&& green_of(c) == green_of(color)
            &&& blue_of(c) == blue_of(color)
            &&& alpha_of(c) == alpha_of(pixel)
        },
{
    assert(covered_alpha(0, color) == 0);
    with_alpha_laws(color, 0, 0);
    blend_laws(pixel, with_alpha_of(color, 0) as u32);
    if alpha_of(color) == 255 {
        assert(covered_alpha(255, color) == 255);
        with_alpha_laws(color, 255, 255);
        blend_laws(pixel, with_alpha_of(color, 255) as u32);
    }
}

} // verus!
