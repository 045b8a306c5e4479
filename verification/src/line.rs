//! Integer line rasterization producing one fragment per pixel of the line.
//!
//! The walk is the error-accumulating Bresenham walk that starts with half the
//! major extent as error: each round it steps in x while `err > -dx` and in y
//! while `err < dy`, testing both against the error at the start of the round.
use vstd::prelude::*;

verus! {

pub open spec fn abs_diff(a: int, b: int) -> int {
    if a <= b {
        b - a
    } else {
        a - b
    }
}

pub open spec fn step_dir(a: int, b: int) -> int {
    if a < b {
        1
    } else {
        -1
    }
}

pub open spec fn max_int(a: int, b: int) -> int {
    if a >= b {
        a
    } else {
        b
    }
}

/// The error the walk from `(x0, y0)` to `(x1, y1)` starts with.
pub open spec fn line_err0(x0: int, y0: int, x1: int, y1: int) -> int {
    let dx = abs_diff(x0, x1);
    let dy = abs_diff(y0, y1);
    if dx > dy {
        dx / 2
    } else {
        -(dy / 2)
    }
}

/// One round of the walk from `(x0, y0)` to `(x1, y1)`, on the state `(x, y, err)`.
pub open spec fn line_step(x0: int, y0: int, x1: int, y1: int, s: (int, int, int)) -> (int, int, int) {
    let dx = abs_diff(x0, x1);
    let dy = abs_diff(y0, y1);
    let (x, y, err) = s;
    let (x2, err2) = if err > -dx {
        (x + step_dir(x0, x1), err - dy)
    } else {
        (x, err)
    };
    if err < dy {
        (x2, y + step_dir(y0, y1), err2 + dx)
    } else {
        (x2, y, err2)
    }
}

/// The state of the walk after `k` rounds.
pub open spec fn line_iter(x0: int, y0: int, x1: int, y1: int, k: nat) -> (int, int, int)
    decreases k,
{
    if k == 0 {
        (x0, y0, line_err0(x0, y0, x1, y1))
    } else {
        line_step(x0, y0, x1, y1, line_iter(x0, y0, x1, y1, (k - 1) as nat))
    }
}

/// Number of rounds the walk takes: the larger of the two extents.
pub open spec fn line_rounds(x0: int, y0: int, x1: int, y1: int) -> nat {
    max_int(abs_diff(x0, x1), abs_diff(y0, y1)) as nat
}

/// The pixels of the line from `(x0, y0)` to `(x1, y1)`, in the order they are visited.
pub open spec fn line_points(x0: int, y0: int, x1: int, y1: int) -> Seq<(int, int)> {
    Seq::new(
        line_rounds(x0, y0, x1, y1) + 1,
        |k: int|
            (line_iter(x0, y0, x1, y1, k as nat).0, line_iter(x0, y0, x1, y1, k as nat).1),
    )
}

/// What holds after `k` rounds: when `dx > dy` every round steps in x, otherwise
/// every round steps in y; the error stays within one major extent of where it started.
pub open spec fn line_inv(x0: int, y0: int, x1: int, y1: int, k: nat) -> bool {
    let dx = abs_diff(x0, x1);
    let dy = abs_diff(y0, y1);
    let sx = step_dir(x0, x1);
    let sy = step_dir(y0, y1);
    let e0 = line_err0(x0, y0, x1, y1);
    let (x, y, err) = line_iter(x0, y0, x1, y1, k);
    let i = sx * (x - x0);
    let j = sy * (y - y0);
    &&& 0 <= i <= dx
    &&& 0 <= j <= dy
    &&& x == x0 + sx * i
    &&& y == y0 + sy * j
    &&& err == e0 + j * dx - i * dy
    &&& dx > dy ==> i == k && e0 - dx < err < e0 + dx
    &&& dx <= dy ==> j == k
    &&& dx <= dy && dy > 0 ==> e0 - dy < err < e0 + dy
}

proof fn lemma_mul_bound(a: int, b: int, c: int)
    requires
        0 <= a <= c,
        0 <= b,
    ensures
        a * b <= c * b,
{
    assert(a * b <= c * b) by (nonlinear_arith)
        requires
            0 <= a <= c,
            0 <= b,
    ;
}

proof fn lemma_lt_of_mul_lt(j: int, d: int, m: int)
    requires
        d > 0,
        j * d < d * (m + 1),
    ensures
        j < m + 1,
{
    assert(j < m + 1) by (nonlinear_arith)
        requires
            d > 0,
            j * d < d * (m + 1),
    ;
}

proof fn lemma_zero_of_small_multiple(m: int, d: int)
    requires
        d > 0,
        -d < m * d < d,
    ensures
        m == 0,
{
    assert(m == 0) by (nonlinear_arith)
        requires
            d > 0,
            -d < m * d < d,
    ;
}

/// The point `i` pixels from `a` toward `b` lies between them when `0 <= i <= |b - a|`.
pub proof fn lemma_on_segment(a: int, b: int, i: int)
    ensures
        b == a + step_dir(a, b) * abs_diff(a, b),
        0 <= i <= abs_diff(a, b) ==> {
            let p = a + step_dir(a, b) * i;
            &&& abs_diff(p, a) == i
            &&& abs_diff(p, b) == abs_diff(a, b) - i
        },
{
    if a < b {
        assert(step_dir(a, b) == 1);
    } else {
        assert(step_dir(a, b) == -1);
    }
}

/// The invariant holds after every round up to the last.
proof fn lemma_line_inv(x0: int, y0: int, x1: int, y1: int, k: nat)
    requires
        k <= line_rounds(x0, y0, x1, y1),
    ensures
        line_inv(x0, y0, x1, y1, k),
    decreases k,
{
    let dx = abs_diff(x0, x1);
    let dy = abs_diff(y0, y1);
    let sx = step_dir(x0, x1);
    let sy = step_dir(y0, y1);
    let e0 = line_err0(x0, y0, x1, y1);
    if k == 0 {
        assert(sx * (x0 - x0) == 0);
        assert(sy * (y0 - y0) == 0);
    } else {
        let kp = (k - 1) as nat;
        lemma_line_inv(x0, y0, x1, y1, kp);
        let (x, y, err) = line_iter(x0, y0, x1, y1, kp);
        let i = sx * (x - x0);
        let j = sy * (y - y0);
        let (xn, yn, errn) = line_iter(x0, y0, x1, y1, k);
        assert(line_iter(x0, y0, x1, y1, k) == line_step(x0, y0, x1, y1, (x, y, err)));
        if dx > dy {
            // every round steps in x
            assert(err > -dx);
            assert(xn == x + sx);
            let jn = if err < dy { j + 1 } else { j };
            assert(yn == y0 + sy * jn) by {
                if err < dy {
                    assert(sy * jn == sy * j + sy) by (nonlinear_arith)
                        requires jn == j + 1;
                }
            }
            assert(sy * (yn - y0) == jn) by {
                assert(sy * (sy * jn) == jn) by (nonlinear_arith)
                    requires sy == 1 || sy == -1;
            }
            assert(sx * (xn - x0) == i + 1) by {
                assert(sx * (sx * i + sx) == i + 1) by (nonlinear_arith)
                    requires sx == 1 || sx == -1;
            }
            assert(xn == x0 + sx * (i + 1)) by (nonlinear_arith)
                requires xn == x + sx, x == x0 + sx * i;
            if err < dy {
                assert(errn == e0 + jn * dx - (i + 1) * dy) by (nonlinear_arith)
                    requires
                        err == e0 + j * dx - i * dy,
                        errn == err - dy + dx,
                        jn == j + 1,
                ;
            } else {
                assert(errn == e0 + jn * dx - (i + 1) * dy) by (nonlinear_arith)
                    requires
                        err == e0 + j * dx - i * dy,
                        errn == err - dy,
                        jn == j,
                ;
            }
            // jn stays within dy: jn * dx < dx * (dy + 1)
            lemma_mul_bound(i + 1, dy, dx);
            assert(jn * dx < dx * (dy + 1)) by (nonlinear_arith)
                requires
                    errn < e0 + dx,
                    errn == e0 + jn * dx - (i + 1) * dy,
                    (i + 1) * dy <= dx * dy,
            ;
            lemma_lt_of_mul_lt(jn, dx, dy);
        } else {
            // every round steps in y
            assert(dy > 0);
            assert(err < dy);
            assert(yn == y + sy);
            let inn = if err > -dx { i + 1 } else { i };
            assert(xn == x0 + sx * inn) by {
                if err > -dx {
                    assert(sx * inn == sx * i + sx) by (nonlinear_arith)
                        requires inn == i + 1;
                }
            }
            assert(sx * (xn - x0) == inn) by {
                assert(sx * (sx * inn) == inn) by (nonlinear_arith)
                    requires sx == 1 || sx == -1;
            }
            assert(sy * (yn - y0) == j + 1) by {
                assert(sy * (sy * j + sy) == j + 1) by (nonlinear_arith)
                    requires sy == 1 || sy == -1;
            }
            assert(yn == y0 + sy * (j + 1)) by (nonlinear_arith)
                requires yn == y + sy, y == y0 + sy * j;
            if err > -dx {
                assert(errn == e0 + (j + 1) * dx - inn * dy) by (nonlinear_arith)
                    requires
                        err == e0 + j * dx - i * dy,
                        errn == err + dx - dy,
                        inn == i + 1,
                ;
            } else {
                assert(errn == e0 + (j + 1) * dx - inn * dy) by (nonlinear_arith)
                    requires
                        err == e0 + j * dx - i * dy,
                        errn == err + dx,
                        inn == i,
                ;
            }
            lemma_mul_bound(j + 1, dx, dy);
            assert(inn * dy < dy * (dx + 1)) by (nonlinear_arith)
                requires
                    errn > e0 - dy,
                    errn == e0 + (j + 1) * dx - inn * dy,
                    (j + 1) * dx <= dy * dx,
            ;
            lemma_lt_of_mul_lt(inn, dy, dx);
        }
    }
}

/// The walk is at its end point exactly after its last round.
pub proof fn lemma_line_at_end(x0: int, y0: int, x1: int, y1: int, k: nat)
    requires
        k <= line_rounds(x0, y0, x1, y1),
    ensures
        (line_iter(x0, y0, x1, y1, k).0 == x1 && line_iter(x0, y0, x1, y1, k).1 == y1) <==> k
            == line_rounds(x0, y0, x1, y1),
{
    lemma_line_inv(x0, y0, x1, y1, k);
    let dx = abs_diff(x0, x1);
    let dy = abs_diff(y0, y1);
    let sx = step_dir(x0, x1);
    let sy = step_dir(y0, y1);
    let e0 = line_err0(x0, y0, x1, y1);
    let (x, y, err) = line_iter(x0, y0, x1, y1, k);
    let i = sx * (x - x0);
    let j = sy * (y - y0);
    lemma_on_segment(x0, x1, dx);
    lemma_on_segment(y0, y1, dy);
    assert(x == x1 <==> i == dx) by (nonlinear_arith)
        requires
            x == x0 + sx * i,
            x1 == x0 + sx * dx,
            sx == 1 || sx == -1,
    ;
    assert(y == y1 <==> j == dy) by (nonlinear_arith)
        requires
            y == y0 + sy * j,
            y1 == y0 + sy * dy,
            sy == 1 || sy == -1,
    ;
    if k == line_rounds(x0, y0, x1, y1) {
        if dx > dy {
            assert((j - dy) * dx == err - e0) by (nonlinear_arith)
                requires
                    err == e0 + j * dx - i * dy,
                    i == dx,
            ;
            lemma_zero_of_small_multiple(j - dy, dx);
        } else if dy > 0 {
            assert((dx - i) * dy == err - e0) by (nonlinear_arith)
                requires
                    err == e0 + j * dx - i * dy,
                    j == dy,
            ;
            lemma_zero_of_small_multiple(dx - i, dy);
        }
    }
}

/// The line's pixels start at its first end point, end at its second, number one
/// more than the larger extent, stay inside the bounding box of the two ends,
/// and each pixel is one of the eight neighbours of the one before it.
pub proof fn lemma_line_points_shape(x0: int, y0: int, x1: int, y1: int)
    ensures
        line_points(x0, y0, x1, y1).len() == max_int(abs_diff(x0, x1), abs_diff(y0, y1)) + 1,
        line_points(x0, y0, x1, y1)[0] == (x0, y0),
        line_points(x0, y0, x1, y1).last() == (x1, y1),
        forall|k: int|
            0 <= k < line_points(x0, y0, x1, y1).len() ==> {
                let p = #[trigger] line_points(x0, y0, x1, y1)[k];
                &&& abs_diff(p.0, x0) <= abs_diff(x0, x1) && abs_diff(p.0, x1) <= abs_diff(x0, x1)
                &&& abs_diff(p.1, y0) <= abs_diff(y0, y1) && abs_diff(p.1, y1) <= abs_diff(y0, y1)
            },
        forall|k: int|
            0 < k < line_points(x0, y0, x1, y1).len() ==> {
                let p = #[trigger] line_points(x0, y0, x1, y1)[k];
                let q = line_points(x0, y0, x1, y1)[k - 1];
                &&& abs_diff(p.0, q.0) <= 1
                &&& abs_diff(p.1, q.1) <= 1
                &&& p != q
            },
{
    let n = line_rounds(x0, y0, x1, y1);
    let pts = line_points(x0, y0, x1, y1);
    lemma_line_at_end(x0, y0, x1, y1, n);
    assert forall|k: int| 0 <= k < pts.len() implies {
        let p = #[trigger] pts[k];
        &&& abs_diff(p.0, x0) <= abs_diff(x0, x1) && abs_diff(p.0, x1) <= abs_diff(x0, x1)
        &&& abs_diff(p.1, y0) <= abs_diff(y0, y1) && abs_diff(p.1, y1) <= abs_diff(y0, y1)
    } by {
        lemma_line_inv(x0, y0, x1, y1, k as nat);
        let (x, y, err) = line_iter(x0, y0, x1, y1, k as nat);
        lemma_on_segment(x0, x1, step_dir(x0, x1) * (x - x0));
        lemma_on_segment(y0, y1, step_dir(y0, y1) * (y - y0));
    }
    assert forall|k: int| 0 < k < pts.len() implies {
        let p = #[trigger] pts[k];
        let q = pts[k - 1];
        &&& abs_diff(p.0, q.0) <= 1
        &&& abs_diff(p.1, q.1) <= 1
        &&& p != q
    } by {
        lemma_line_inv(x0, y0, x1, y1, k as nat);
        lemma_line_inv(x0, y0, x1, y1, (k - 1) as nat);
        assert(line_iter(x0, y0, x1, y1, k as nat) == line_step(
            x0,
            y0,
            x1,
            y1,
            line_iter(x0, y0, x1, y1, (k - 1) as nat),
        ));
    }
}

/// One pixel of a rasterized line. The depth at the pixel is the start depth
/// moved toward the end depth by `t_num / t_den`, clamped to `[0, 1]`;
/// `t_den` is never zero.
#[derive(Clone, Copy, Debug, PartialEq, Eq, Structural)]
pub struct LineFragment {
    pub x: i32,
    pub y: i32,
    pub t_num: i64,
    pub t_den: i64,
}

/// The fraction numerator at pixel `(x, y)`: progress along the major axis from `(ox, oy)`.
pub open spec fn line_t_num(x0: int, y0: int, x1: int, y1: int, ox: int, oy: int, x: int, y: int) -> int {
    if abs_diff(x0, x1) >= abs_diff(y0, y1) {
        x - ox
    } else {
        y - oy
    }
}

/// The fraction denominator: the end's progress along the major axis, or 1 when that is zero.
pub open spec fn line_t_den(x0: int, y0: int, x1: int, y1: int, ox: int, oy: int) -> int {
    let d = if abs_diff(x0, x1) >= abs_diff(y0, y1) {
        x1 - ox
    } else {
        y1 - oy
    };
    if d == 0 {
        1
    } else {
        d
    }
}

/// Depth progress along a line: at every pixel the numerator is the signed
/// distance from the truncated start `(ox, oy)` along the major axis and the
/// denominator is that of the second end point (1 when it is zero). So when the
/// line starts at `(ox, oy)` the progress is 0 at the first pixel, and it is 1 at
/// the last pixel whenever the second end point is off `(ox, oy)` along the major axis.
pub proof fn lemma_line_progress(x0: int, y0: int, x1: int, y1: int, ox: int, oy: int)
    ensures
        forall|x: int, y: int|
            #[trigger] line_t_num(x0, y0, x1, y1, ox, oy, x, y) == (if abs_diff(x0, x1) >= abs_diff(
                y0,
                y1,
            ) {
                x - ox
            } else {
                y - oy
            }),
        line_t_den(x0, y0, x1, y1, ox, oy) == (if abs_diff(x0, x1) >= abs_diff(y0, y1) {
            if x1 == ox { 1 } else { x1 - ox }
        } else {
            if y1 == oy { 1 } else { y1 - oy }
        }),
        line_t_den(x0, y0, x1, y1, ox, oy) != 0,
        (ox, oy) == (x0, y0) ==> line_t_num(
            x0,
            y0,
            x1,
            y1,
            ox,
            oy,
            line_points(x0, y0, x1, y1)[0].0,
            line_points(x0, y0, x1, y1)[0].1,
        ) == 0,
        (if abs_diff(x0, x1) >= abs_diff(y0, y1) { x1 != ox } else { y1 != oy }) ==> line_t_num(
            x0,
            y0,
            x1,
            y1,
            ox,
            oy,
            line_points(x0, y0, x1, y1).last().0,
            line_points(x0, y0, x1, y1).last().1,
        ) == line_t_den(x0, y0, x1, y1, ox, oy),
{
    lemma_line_points_shape(x0, y0, x1, y1);
}

fn abs_i64(v: i64) -> (r: i64)
    requires
        v > i64::MIN,
    ensures
        r as int == (if v < 0 { -(v as int) } else { v as int }),
{
    if v < 0 {
        -v
    } else {
        v
    }
}

/// Rasterizes the line from `(x0, y0)` to `(x1, y1)` (the end points rounded to
/// pixels). `(ox, oy)` is the start point truncated toward zero; depth progress is
/// measured from it along the major axis.
pub fn line(x0: i32, y0: i32, x1: i32, y1: i32, ox: i32, oy: i32) -> (frags: Vec<LineFragment>)
    ensures
        frags@.len() == line_points(x0 as int, y0 as int, x1 as int, y1 as int).len(),
        forall|k: int|
            0 <= k < frags@.len() ==> {
                let p = line_points(x0 as int, y0 as int, x1 as int, y1 as int)[k];
                &&& (#[trigger] frags@[k]).x == p.0
                &&& frags@[k].y == p.1
                &&& frags@[k].t_num == line_t_num(
                    x0 as int,
                    y0 as int,
                    x1 as int,
                    y1 as int,
                    ox as int,
                    oy as int,
                    p.0,
                    p.1,
                )
                &&& frags@[k].t_den == line_t_den(
                    x0 as int,
                    y0 as int,
                    x1 as int,
                    y1 as int,
                    ox as int,
                    oy as int,
                )
            },
        // the fragments run from the first end point to the second
        frags@.len() >= 1,
        frags@[0].x == x0 && frags@[0].y == y0,
        frags@.last().x == x1 && frags@.last().y == y1,
        // depth progress is the signed distance from the truncated start along the
        // major axis, over that of the second end point (1 when it is zero)
        forall|k: int|
            0 <= k < frags@.len() ==> (#[trigger] frags@[k]).t_num == (if abs_diff(
                x0 as int,
                x1 as int,
            ) >= abs_diff(y0 as int, y1 as int) {
                frags@[k].x - ox
            } else {
                frags@[k].y - oy
            }),
        forall|k: int|
            0 <= k < frags@.len() ==> (#[trigger] frags@[k]).t_den == (if abs_diff(
                x0 as int,
                x1 as int,
            ) >= abs_diff(y0 as int, y1 as int) {
                if x1 == ox { 1 } else { x1 - ox }
            } else {
                if y1 == oy { 1 } else { y1 - oy }
            }),
{
    proof {
        lemma_line_points_shape(x0 as int, y0 as int, x1 as int, y1 as int);
        lemma_line_progress(x0 as int, y0 as int, x1 as int, y1 as int, ox as int, oy as int);
    }
    let ghost (gx0, gy0, gx1, gy1) = (x0 as int, y0 as int, x1 as int, y1 as int);
    let ghost pts = line_points(gx0, gy0, gx1, gy1);
    let ghost n = line_rounds(gx0, gy0, gx1, gy1);
    let ghost tden = line_t_den(gx0, gy0, gx1, gy1, ox as int, oy as int);
    let xe = x1 as i64;
    let ye = y1 as i64;
    let mut x = x0 as i64;
    let mut y = y0 as i64;
    let dx = abs_i64(xe - x);
    let dy = abs_i64(ye - y);
    let sx: i64 = if x < xe { 1 } else { -1 };
    let sy: i64 = if y < ye { 1 } else { -1 };
    let mut err: i64 = if dx > dy { dx / 2 } else { -(dy / 2) };
    let major_x = dx >= dy;
    let den0: i64 = if major_x { xe - ox as i64 } else { ye - oy as i64 };
    let den: i64 = if den0 == 0 { 1 } else { den0 };
    let mut frags: Vec<LineFragment> = Vec::new();
    let ghost mut k: nat = 0;
    proof {
        lemma_line_inv(gx0, gy0, gx1, gy1, 0);
    }
    loop
        invariant_except_break
            k <= n,
            (x as int, y as int, err as int) == line_iter(gx0, gy0, gx1, gy1, k),
            line_inv(gx0, gy0, gx1, gy1, k),
            frags@.len() == k,
        invariant
            gx0 == x0 as int,
            gy0 == y0 as int,
            gx1 == x1 as int,
            gy1 == y1 as int,
            dx == abs_diff(gx0, gx1),
            dy == abs_diff(gy0, gy1),
            sx == step_dir(gx0, gx1),
            sy == step_dir(gy0, gy1),
            xe == gx1,
            ye == gy1,
            major_x == (dx >= dy),
            den == tden,
            pts == line_points(gx0, gy0, gx1, gy1),
            n == line_rounds(gx0, gy0, gx1, gy1),
            forall|m: int|
                0 <= m < frags@.len() ==> {
                    let p = pts[m];
                    &&& (#[trigger] frags@[m]).x == p.0
                    &&& frags@[m].y == p.1
                    &&& frags@[m].t_num == line_t_num(
                        gx0,
                        gy0,
                        gx1,
                        gy1,
                        ox as int,
                        oy as int,
                        p.0,
                        p.1,
                    )
                    &&& frags@[m].t_den == tden
                },
        ensures
            frags@.len() == n + 1,
        decreases n - k,
    {
        proof {
            lemma_line_at_end(gx0, gy0, gx1, gy1, k);
            assert(pts[k as int] == (x as int, y as int));
            lemma_on_segment(gx0, gx1, sx * (x - gx0));
            lemma_on_segment(gy0, gy1, sy * (y - gy0));
            assert(abs_diff(x as int, gx0) + abs_diff(x as int, gx1) == abs_diff(gx0, gx1));
            assert(abs_diff(y as int, gy0) + abs_diff(y as int, gy1) == abs_diff(gy0, gy1));
            assert(i32::MIN <= x <= i32::MAX);
            assert(i32::MIN <= y <= i32::MAX);
        }
        let num: i64 = if major_x { x - ox as i64 } else { y - oy as i64 };
        frags.push(LineFragment { x: x as i32, y: y as i32, t_num: num, t_den: den });
        if x == xe && y == ye {
            break;
        }
        let e2 = err;
        if e2 > -dx {
            err = err - dy;
            x = x + sx;
        }
        if e2 < dy {
            err = err + dx;
            y = y + sy;
        }
        proof {
            k = k + 1;
            lemma_line_inv(gx0, gy0, gx1, gy1, k);
        }
    }
    frags
}

} // verus!
