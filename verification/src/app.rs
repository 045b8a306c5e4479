//! Scene state that does not depend on floating point: which body is being
//! inspected, the orbit trails, and the depth-aware trail lines.
use vstd::prelude::*;

use crate::framebuffer::{
    Framebuffer,
    FrameView,
    plot_points,
    lemma_plot_points_wf,
};
use crate::line::{abs_diff, step_dir, lemma_on_segment};

verus! {

/// Which part of the system is shown: everything, or one body in close-up.
#[derive(Clone, Copy, Debug, PartialEq, Eq, Structural)]
pub enum Inspect {
    All,
    Star,
    Rocky,
    Gas,
    Lava,
    Verdant,
    GasGold,
}

impl Inspect {
    /// Whether `body` is drawn in this mode: every body is drawn in `All`,
    /// otherwise only the inspected one.
    pub fn shows(self, body: Inspect) -> (r: bool)
        ensures
            r == (self == Inspect::All || self == body),
    {
        self == Inspect::All || self == body
    }

    /// Spins and animated layers are frozen while a single body is inspected.
    pub fn is_frozen(self) -> (r: bool)
        ensures
            r == (self != Inspect::All),
    {
        self != Inspect::All
    }
}

/// The mode selected by the number keys `0` to `6` held down this frame: the
/// highest held key wins, and with no key held the mode stays as it was.
pub open spec fn selected_inspect(current: Inspect, keys: Seq<bool>) -> Inspect {
    if keys[6] {
        Inspect::GasGold
    } else if keys[5] {
        Inspect::Verdant
    } else if keys[4] {
        Inspect::Lava
    } else if keys[3] {
        Inspect::Gas
    } else if keys[2] {
        Inspect::Rocky
    } else if keys[1] {
        Inspect::Star
    } else if keys[0] {
        Inspect::All
    } else {
        current
    }
}

/// The inspection mode and the mode the camera was last framed for.
pub struct InspectState {
    pub inspect: Inspect,
    pub prev_inspect: Inspect,
}

impl InspectState {
    pub fn new() -> (s: InspectState)
        ensures
            s.inspect == Inspect::All,
            s.prev_inspect == Inspect::All,
    {
        InspectState { inspect: Inspect::All, prev_inspect: Inspect::All }
    }

    /// Applies the number keys held this frame (`keys_down[k]` for key `k`).
    /// When the mode differs from the one the camera was framed for, returns the
    /// mode to frame the camera for and records it as framed.
    pub fn handle_hotkeys(&mut self, keys_down: [bool; 7]) -> (reframe: Option<Inspect>)
        ensures
            final(self).inspect == selected_inspect(old(self).inspect, keys_down@),
            final(self).inspect != old(self).prev_inspect ==> reframe == Some(final(self).inspect)
                && final(self).prev_inspect == final(self).inspect,
            final(self).inspect == old(self).prev_inspect ==> reframe.is_none()
                && final(self).prev_inspect == old(self).prev_inspect,
    {
        if keys_down[0] {
            self.inspect = Inspect::All;
        }
        if keys_down[1] {
            self.inspect = Inspect::Star;
        }
        if keys_down[2] {
            self.inspect = Inspect::Rocky;
        }
        if keys_down[3] {
            self.inspect = Inspect::Gas;
        }
        if keys_down[4] {
            self.inspect = Inspect::Lava;
        }
        if keys_down[5] {
            self.inspect = Inspect::Verdant;
        }
        if keys_down[6] {
            self.inspect = Inspect::GasGold;
        }
        if self.inspect != self.prev_inspect {
            self.prev_inspect = self.inspect;
            Some(self.inspect)
        } else {
            None
        }
    }
}

/// Appends `p` to a trail and, when the trail then holds more than `max_len`
/// points, drops its oldest point.
pub fn push_trail<T>(trail: &mut Vec<T>, p: T, max_len: usize)
    ensures
        old(trail)@.len() + 1 > max_len ==> final(trail)@ == old(trail)@.push(p).drop_first(),
        old(trail)@.len() + 1 <= max_len ==> final(trail)@ == old(trail)@.push(p),
{
    trail.push(p);
    if trail.len() > max_len {
        trail.remove(0);
    }
}

/// A trail never grows past its limit, and its newest point is the one pushed last.
pub proof fn lemma_trail_bounded<T>(old_trail: Seq<T>, p: T, max_len: nat)
    requires
        old_trail.len() <= max_len,
        max_len >= 1,
    ensures
        ({
            let t = if old_trail.len() + 1 > max_len {
                old_trail.push(p).drop_first()
            } else {
                old_trail.push(p)
            };
            &&& t.len() <= max_len
            &&& t.last() == p
            &&& old_trail.len() + 1 > max_len ==> t == old_trail.drop_first().push(p)
        }),
{
    if old_trail.len() + 1 > max_len {
        assert(old_trail.push(p).drop_first() =~= old_trail.drop_first().push(p));
    }
}

/* ---- Trail lines -------------------------------------------------------
   The depth-aware trail line walks with the symmetric Bresenham error
   `err = dx - |y1 - y0|`, doubled for the test: step in x while
   `2 err >= -|y1 - y0|`, step in y while `2 err <= dx`. */

/// One round of the trail-line walk from `(x0, y0)` to `(x1, y1)`, on `(x, y, err)`.
pub open spec fn trail_step(x0: int, y0: int, x1: int, y1: int, s: (int, int, int)) -> (int, int, int) {
    let dx = abs_diff(x0, x1);
    let dy = -abs_diff(y0, y1);
    let (x, y, err) = s;
    let e2 = 2 * err;
    let (x2, err2) = if e2 >= dy {
        (x + step_dir(x0, x1), err + dy)
    } else {
        (x, err)
    };
    if e2 <= dx {
        (x2, y + step_dir(y0, y1), err2 + dx)
    } else {
        (x2, y, err2)
    }
}

/// The pixels visited from state `s` on, until the end point (or until `fuel` runs out).
pub open spec fn trail_from(x0: int, y0: int, x1: int, y1: int, s: (int, int, int), fuel: nat) -> Seq<(int, int)>
    decreases fuel,
{
    if (s.0 == x1 && s.1 == y1) || fuel == 0 {
        seq![(s.0, s.1)]
    } else {
        seq![(s.0, s.1)] + trail_from(x0, y0, x1, y1, trail_step(x0, y0, x1, y1, s), (fuel - 1) as nat)
    }
}

/// The starting state of the trail-line walk.
pub open spec fn trail_start(x0: int, y0: int, x1: int, y1: int) -> (int, int, int) {
    (x0, y0, abs_diff(x0, x1) - abs_diff(y0, y1))
}

/// The pixels of the trail line from `(x0, y0)` to `(x1, y1)`, in order.
pub open spec fn trail_line_points(x0: int, y0: int, x1: int, y1: int) -> Seq<(int, int)> {
    trail_from(
        x0,
        y0,
        x1,
        y1,
        trail_start(x0, y0, x1, y1),
        (abs_diff(x0, x1) + abs_diff(y0, y1)) as nat,
    )
}

/// What holds at every state of the walk: `i` x-steps and `j` y-steps have been
/// taken, neither past the end, and the error is `(j + 1) dx - (i + 1) |dy|`.
pub open spec fn trail_inv(x0: int, y0: int, x1: int, y1: int, s: (int, int, int)) -> bool {
    let dx = abs_diff(x0, x1);
    let ady = abs_diff(y0, y1);
    let sx = step_dir(x0, x1);
    let sy = step_dir(y0, y1);
    let (x, y, err) = s;
    let i = sx * (x - x0);
    let j = sy * (y - y0);
    &&& 0 <= i <= dx
    &&& 0 <= j <= ady
    &&& x == x0 + sx * i
    &&& y == y0 + sy * j
    &&& err == (j + 1) * dx - (i + 1) * ady
    &&& -2 * (dx + ady) <= err <= 2 * (dx + ady)
}

/// Steps left to the end point.
pub open spec fn trail_dist(x0: int, y0: int, x1: int, y1: int, s: (int, int, int)) -> int {
    abs_diff(s.0, x1) + abs_diff(s.1, y1)
}

proof fn lemma_trail_inv_start(x0: int, y0: int, x1: int, y1: int)
    ensures
        trail_inv(x0, y0, x1, y1, trail_start(x0, y0, x1, y1)),
        trail_dist(x0, y0, x1, y1, trail_start(x0, y0, x1, y1)) == abs_diff(x0, x1) + abs_diff(
            y0,
            y1,
        ),
{
    let sx = step_dir(x0, x1);
    let sy = step_dir(y0, y1);
    assert(sx * (x0 - x0) == 0);
    assert(sy * (y0 - y0) == 0);
    let dx = abs_diff(x0, x1);
    let ady = abs_diff(y0, y1);
    assert((0 + 1) * dx - (0 + 1) * ady == dx - ady) by (nonlinear_arith);
    lemma_on_segment(x0, x1, 0);
    lemma_on_segment(y0, y1, 0);
}

/// Positions of the walk, read as step counts.
proof fn lemma_trail_position(x0: int, y0: int, x1: int, y1: int, s: (int, int, int))
    requires
        trail_inv(x0, y0, x1, y1, s),
    ensures
        ({
            let i = step_dir(x0, x1) * (s.0 - x0);
            let j = step_dir(y0, y1) * (s.1 - y0);
            &&& abs_diff(s.0, x0) == i
            &&& abs_diff(s.0, x1) == abs_diff(x0, x1) - i
            &&& abs_diff(s.1, y0) == j
            &&& abs_diff(s.1, y1) == abs_diff(y0, y1) - j
            &&& (s.0 == x1 <==> i == abs_diff(x0, x1))
            &&& (s.1 == y1 <==> j == abs_diff(y0, y1))
        }),
{
    let i = step_dir(x0, x1) * (s.0 - x0);
    let j = step_dir(y0, y1) * (s.1 - y0);
    lemma_on_segment(x0, x1, i);
    lemma_on_segment(y0, y1, j);
}

/// A round away from the end point keeps the invariant, moves to one of the eight
/// neighbouring pixels, and brings the walk at least one step closer to the end.
proof fn lemma_trail_step(x0: int, y0: int, x1: int, y1: int, s: (int, int, int))
    requires
        trail_inv(x0, y0, x1, y1, s),
        !(s.0 == x1 && s.1 == y1),
    ensures
        trail_inv(x0, y0, x1, y1, trail_step(x0, y0, x1, y1, s)),
        trail_dist(x0, y0, x1, y1, trail_step(x0, y0, x1, y1, s)) < trail_dist(x0, y0, x1, y1, s),
        abs_diff(trail_step(x0, y0, x1, y1, s).0, s.0) <= 1,
        abs_diff(trail_step(x0, y0, x1, y1, s).1, s.1) <= 1,
        (trail_step(x0, y0, x1, y1, s).0, trail_step(x0, y0, x1, y1, s).1) != (s.0, s.1),
{
    let dx = abs_diff(x0, x1);
    let ady = abs_diff(y0, y1);
    let sx = step_dir(x0, x1);
    let sy = step_dir(y0, y1);
    let (x, y, err) = s;
    let i = sx * (x - x0);
    let j = sy * (y - y0);
    lemma_trail_position(x0, y0, x1, y1, s);
    let e2 = 2 * err;
    let xs = e2 >= -ady;
    let ys = e2 <= dx;
    // some step is always taken
    assert(xs || ys);
    // an x-step is only taken before the last column
    if i == dx {
        assert(j < ady);
        assert((j + 1) * dx <= ady * dx) by (nonlinear_arith)
            requires
                0 <= j + 1 <= ady,
                0 <= dx,
        ;
        assert(err <= -ady) by (nonlinear_arith)
            requires
                err == (j + 1) * dx - (i + 1) * ady,
                i == dx,
                (j + 1) * dx <= ady * dx,
        ;
        assert(!xs);
    }
    if j == ady {
        assert(i < dx);
        assert((i + 1) * ady <= dx * ady) by (nonlinear_arith)
            requires
                0 <= i + 1 <= dx,
                0 <= ady,
        ;
        assert(err >= dx) by (nonlinear_arith)
            requires
                err == (j + 1) * dx - (i + 1) * ady,
                j == ady,
                (i + 1) * ady <= dx * ady,
        ;
        assert(!ys);
    }
    let ni = if xs { i + 1 } else { i };
    let nj = if ys { j + 1 } else { j };
    let (xn, yn, errn) = trail_step(x0, y0, x1, y1, s);
    assert(xn == x0 + sx * ni) by {
        if xs {
            assert(sx * ni == sx * i + sx) by (nonlinear_arith)
                requires ni == i + 1;
        }
    }
    assert(yn == y0 + sy * nj) by {
        if ys {
            assert(sy * nj == sy * j + sy) by (nonlinear_arith)
                requires nj == j + 1;
        }
    }
    assert(sx * (xn - x0) == ni) by {
        assert(sx * (sx * ni) == ni) by (nonlinear_arith)
            requires sx == 1 || sx == -1;
    }
    assert(sy * (yn - y0) == nj) by {
        assert(sy * (sy * nj) == nj) by (nonlinear_arith)
            requires sy == 1 || sy == -1;
    }
    let di: int = if xs { 1 } else { 0 };
    let dj: int = if ys { 1 } else { 0 };
    assert(errn == err - di * ady + dj * dx);
    assert(errn == (nj + 1) * dx - (ni + 1) * ady) by (nonlinear_arith)
        requires
            err == (j + 1) * dx - (i + 1) * ady,
            errn == err - di * ady + dj * dx,
            ni == i + di,
            nj == j + dj,
    ;
    lemma_trail_position(x0, y0, x1, y1, (xn, yn, errn));
}

/// The walk from any state satisfying the invariant, given fuel for every step
/// still to take, starts at that state's pixel, ends at the end point, and moves
/// to a neighbouring pixel at every step.
pub proof fn lemma_trail_from_shape(x0: int, y0: int, x1: int, y1: int, s: (int, int, int), fuel: nat)
    requires
        trail_inv(x0, y0, x1, y1, s),
        trail_dist(x0, y0, x1, y1, s) <= fuel,
    ensures
        trail_from(x0, y0, x1, y1, s, fuel).len() >= 1,
        trail_from(x0, y0, x1, y1, s, fuel)[0] == (s.0, s.1),
        trail_from(x0, y0, x1, y1, s, fuel).last() == (x1, y1),
        forall|k: int|
            0 <= k < trail_from(x0, y0, x1, y1, s, fuel).len() ==> {
                let p = #[trigger] trail_from(x0, y0, x1, y1, s, fuel)[k];
                &&& abs_diff(p.0, x0) <= abs_diff(x0, x1) && abs_diff(p.0, x1) <= abs_diff(x0, x1)
                &&& abs_diff(p.1, y0) <= abs_diff(y0, y1) && abs_diff(p.1, y1) <= abs_diff(y0, y1)
            },
        forall|k: int|
            0 < k < trail_from(x0, y0, x1, y1, s, fuel).len() ==> {
                let p = #[trigger] trail_from(x0, y0, x1, y1, s, fuel)[k];
                let q = trail_from(x0, y0, x1, y1, s, fuel)[k - 1];
                &&& abs_diff(p.0, q.0) <= 1
                &&& abs_diff(p.1, q.1) <= 1
                &&& p != q
            },
    decreases fuel,
{
    lemma_trail_position(x0, y0, x1, y1, s);
    let pts = trail_from(x0, y0, x1, y1, s, fuel);
    if s.0 == x1 && s.1 == y1 {
        assert(pts == seq![(s.0, s.1)]);
    } else {
        assert(fuel > 0);
        let sn = trail_step(x0, y0, x1, y1, s);
        lemma_trail_step(x0, y0, x1, y1, s);
        let fp = (fuel - 1) as nat;
        lemma_trail_from_shape(x0, y0, x1, y1, sn, fp);
        let rest = trail_from(x0, y0, x1, y1, sn, fp);
        assert(pts == seq![(s.0, s.1)] + rest);
        assert forall|k: int| 0 <= k < pts.len() implies {
            let p = #[trigger] pts[k];
            &&& abs_diff(p.0, x0) <= abs_diff(x0, x1) && abs_diff(p.0, x1) <= abs_diff(x0, x1)
            &&& abs_diff(p.1, y0) <= abs_diff(y0, y1) && abs_diff(p.1, y1) <= abs_diff(y0, y1)
        } by {
            if k > 0 {
                assert(pts[k] == rest[k - 1]);
            }
        }
        assert forall|k: int| 0 < k < pts.len() implies {
            let p = #[trigger] pts[k];
            let q = pts[k - 1];
            &&& abs_diff(p.0, q.0) <= 1
            &&& abs_diff(p.1, q.1) <= 1
            &&& p != q
        } by {
            assert(pts[k] == rest[k - 1]);
            if k > 1 {
                assert(pts[k - 1] == rest[k - 2]);
            } else {
                assert(rest[0] == (sn.0, sn.1));
            }
        }
    }
}

/// The trail line starts at its first end point, ends at its second, stays in
/// the bounding box of the two, and each pixel neighbours the one before it.
pub proof fn lemma_trail_line_shape(x0: int, y0: int, x1: int, y1: int)
    ensures
        trail_line_points(x0, y0, x1, y1)[0] == (x0, y0),
        trail_line_points(x0, y0, x1, y1).last() == (x1, y1),
        forall|k: int|
            0 <= k < trail_line_points(x0, y0, x1, y1).len() ==> {
                let p = #[trigger] trail_line_points(x0, y0, x1, y1)[k];
                &&& abs_diff(p.0, x0) <= abs_diff(x0, x1) && abs_diff(p.0, x1) <= abs_diff(x0, x1)
                &&& abs_diff(p.1, y0) <= abs_diff(y0, y1) && abs_diff(p.1, y1) <= abs_diff(y0, y1)
            },
        forall|k: int|
            0 < k < trail_line_points(x0, y0, x1, y1).len() ==> {
                let p = #[trigger] trail_line_points(x0, y0, x1, y1)[k];
                let q = trail_line_points(x0, y0, x1, y1)[k - 1];
                &&& abs_diff(p.0, q.0) <= 1
                &&& abs_diff(p.1, q.1) <= 1
                &&& p != q
            },
{
    lemma_trail_inv_start(x0, y0, x1, y1);
    lemma_trail_from_shape(
        x0,
        y0,
        x1,
        y1,
        trail_start(x0, y0, x1, y1),
        (abs_diff(x0, x1) + abs_diff(y0, y1)) as nat,
    );
}

fn abs_i128(v: i128) -> (r: i128)
    requires
        v > i128::MIN,
    ensures
        r as int == (if v < 0 { -(v as int) } else { v as int }),
{
    if v < 0 {
        -v
    } else {
        v
    }
}

/// Draws the trail line from `(x0, y0)` to `(x1, y1)` with the depth test, at
/// depth `depth`; pixels off the framebuffer are skipped.
pub fn draw_line_2d_depth(
    fb: &mut Framebuffer,
    x0: isize,
    y0: isize,
    x1: isize,
    y1: isize,
    color: u32,
    depth: u32,
)
    requires
        old(fb)@.wf(),
    ensures
        final(fb)@ == plot_points(
            old(fb)@,
            trail_line_points(x0 as int, y0 as int, x1 as int, y1 as int),
            color,
            depth,
        ),
        final(fb)@.wf(),
{
    let ghost (gx0, gy0, gx1, gy1) = (x0 as int, y0 as int, x1 as int, y1 as int);
    let ghost total = trail_line_points(gx0, gy0, gx1, gy1);
    let ghost fb0 = fb@;
    let w = fb.width() as i128;
    let h = fb.height() as i128;
    let xe = x1 as i128;
    let ye = y1 as i128;
    let mut x = x0 as i128;
    let mut y = y0 as i128;
    let dx = abs_i128(xe - x);
    let dy = -abs_i128(ye - y);
    let sx: i128 = if x < xe { 1 } else { -1 };
    let sy: i128 = if y < ye { 1 } else { -1 };
    let mut err: i128 = dx + dy;
    let ghost mut prefix: Seq<(int, int)> = Seq::empty();
    let ghost mut fuel: nat = (abs_diff(gx0, gx1) + abs_diff(gy0, gy1)) as nat;
    proof {
        lemma_trail_inv_start(gx0, gy0, gx1, gy1);
        assert(prefix + trail_from(gx0, gy0, gx1, gy1, (x as int, y as int, err as int), fuel)
            =~= total);
    }
    loop
        invariant_except_break
            trail_inv(gx0, gy0, gx1, gy1, (x as int, y as int, err as int)),
            trail_dist(gx0, gy0, gx1, gy1, (x as int, y as int, err as int)) <= fuel,
            prefix + trail_from(gx0, gy0, gx1, gy1, (x as int, y as int, err as int), fuel)
                == total,
            fb@ == plot_points(fb0, prefix, color, depth),
        invariant
            gx0 == x0 as int,
            gy0 == y0 as int,
            gx1 == x1 as int,
            gy1 == y1 as int,
            xe == gx1,
            ye == gy1,
            dx == abs_diff(gx0, gx1),
            dy == -abs_diff(gy0, gy1),
            sx == step_dir(gx0, gx1),
            sy == step_dir(gy0, gy1),
            w == fb0.width,
            h == fb0.height,
            fb0.wf(),
            total == trail_line_points(gx0, gy0, gx1, gy1),
        ensures
            fb@ == plot_points(fb0, total, color, depth),
        decreases abs_diff(x as int, gx1) + abs_diff(y as int, gy1),
    {
        let ghost s = (x as int, y as int, err as int);
        proof {
            lemma_trail_position(gx0, gy0, gx1, gy1, s);
            lemma_on_segment(gx0, gx1, sx * (x - gx0));
            lemma_on_segment(gy0, gy1, sy * (y - gy0));
            lemma_plot_points_wf(fb0, prefix, color, depth);
            assert(prefix.push((s.0, s.1)).drop_last() =~= prefix);
        }
        if x >= 0 && y >= 0 && x < w && y < h {
            fb.plot(x as usize, y as usize, color, depth);
        }
        proof {
            prefix = prefix.push((s.0, s.1));
        }
        if x == xe && y == ye {
            proof {
                assert(trail_from(gx0, gy0, gx1, gy1, s, fuel) == seq![(s.0, s.1)]);
                assert(prefix =~= total);
            }
            break;
        }
        let e2 = 2 * err;
        if e2 >= dy {
            err = err + dy;
            x = x + sx;
        }
        if e2 <= dx {
            err = err + dx;
            y = y + sy;
        }
        proof {
            lemma_trail_step(gx0, gy0, gx1, gy1, s);
            let rest = trail_from(gx0, gy0, gx1, gy1, (x as int, y as int, err as int), (fuel
                - 1) as nat);
            assert(trail_from(gx0, gy0, gx1, gy1, s, fuel) == seq![(s.0, s.1)] + rest);
            assert(prefix + rest =~= prefix.drop_last() + (seq![(s.0, s.1)] + rest));
            fuel = (fuel - 1) as nat;
        }
    }
    proof {
        lemma_plot_points_wf(fb0, total, color, depth);
    }
}

/// The trail segments: consecutive projected points that are both on screen.
pub open spec fn trail_drawn(
    v: FrameView,
    pts: Seq<Option<(isize, isize)>>,
    color: u32,
    depth: u32,
) -> FrameView
    decreases pts.len(),
{
    if pts.len() < 2 {
        v
    } else {
        let before = trail_drawn(v, pts.drop_last(), color, depth);
        match (pts[pts.len() - 2], pts[pts.len() - 1]) {
            (Some(a), Some(b)) => plot_points(
                before,
                trail_line_points(a.0 as int, a.1 as int, b.0 as int, b.1 as int),
                color,
                depth,
            ),
            _ => before,
        }
    }
}

proof fn lemma_trail_drawn_wf(v: FrameView, pts: Seq<Option<(isize, isize)>>, color: u32, depth: u32)
    requires
        v.wf(),
    ensures
        trail_drawn(v, pts, color, depth).wf(),
        trail_drawn(v, pts, color, depth).width == v.width,
        trail_drawn(v, pts, color, depth).height == v.height,
    decreases pts.len(),
{
    if pts.len() >= 2 {
        lemma_trail_drawn_wf(v, pts.drop_last(), color, depth);
        let before = trail_drawn(v, pts.drop_last(), color, depth);
        match (pts[pts.len() - 2], pts[pts.len() - 1]) {
            (Some(a), Some(b)) => {
                lemma_plot_points_wf(
                    before,
                    trail_line_points(a.0 as int, a.1 as int, b.0 as int, b.1 as int),
                    color,
                    depth,
                );
            },
            _ => {},
        }
    }
}

/// A point that did not project cuts a trail in two: drawing `p`, a missing
/// point, then `q` is drawing `p` and then drawing `q` on its own, so no segment
/// joins the last point of `p` to the first of `q`.
pub proof fn lemma_trail_none_splits(
    v: FrameView,
    p: Seq<Option<(isize, isize)>>,
    q: Seq<Option<(isize, isize)>>,
    color: u32,
    depth: u32,
)
    ensures
        trail_drawn(v, p.push(None) + q, color, depth) == trail_drawn(
            trail_drawn(v, p, color, depth),
            q,
            color,
            depth,
        ),
    decreases q.len(),
{
    let s = p.push(None) + q;
    if q.len() == 0 {
        assert(s =~= p.push(None));
        if p.len() >= 1 {
            assert(s.drop_last() =~= p);
        } else {
            assert(trail_drawn(v, p, color, depth) == v);
        }
    } else {
        lemma_trail_none_splits(v, p, q.drop_last(), color, depth);
        assert(s.drop_last() =~= p.push(None) + q.drop_last());
        assert(s[s.len() - 1] == q[q.len() - 1]);
        if q.len() == 1 {
            assert(s[s.len() - 2] == None::<(isize, isize)>);
        } else {
            assert(s[s.len() - 2] == q[q.len() - 2]);
        }
    }
}

/// Segments are drawn only between neighbours in the list that both projected:
/// when no two neighbouring points both projected, nothing is drawn at all.
pub proof fn lemma_trail_without_pairs_draws_nothing(
    v: FrameView,
    pts: Seq<Option<(isize, isize)>>,
    color: u32,
    depth: u32,
)
    requires
        forall|k: int| 0 <= k < pts.len() - 1 ==> !((#[trigger] pts[k]).is_some() && pts[k + 1].is_some()),
    ensures
        trail_drawn(v, pts, color, depth) == v,
    decreases pts.len(),
{
    if pts.len() >= 2 {
        let d = pts.drop_last();
        assert forall|k: int| 0 <= k < d.len() - 1 implies !((#[trigger] d[k]).is_some() && d[k + 1].is_some()) by {
            assert(d[k] == pts[k] && d[k + 1] == pts[k + 1]);
        }
        lemma_trail_without_pairs_draws_nothing(v, d, color, depth);
        assert(!(pts[pts.len() - 2].is_some() && pts[pts.len() - 1].is_some()));
    }
}

/// Draws an orbit trail from its points projected to the screen (`None` for a
/// point that did not project): each two consecutive projected points are
/// joined by a trail line; a point that did not project breaks the trail.
pub fn draw_trail(fb: &mut Framebuffer, projected: &Vec<Option<(isize, isize)>>, color: u32, depth: u32)
    requires
        old(fb)@.wf(),
    ensures
        final(fb)@ == trail_drawn(old(fb)@, projected@, color, depth),
        final(fb)@.wf(),
        (forall|k: int|
            0 <= k < projected@.len() - 1 ==> !((#[trigger] projected@[k]).is_some()
                && projected@[k + 1].is_some())) ==> final(fb)@ == old(fb)@,
{
    proof {
        if forall|k: int|
            0 <= k < projected@.len() - 1 ==> !((#[trigger] projected@[k]).is_some()
                && projected@[k + 1].is_some()) {
            lemma_trail_without_pairs_draws_nothing(fb@, projected@, color, depth);
        }
    }
    let ghost fb0 = fb@;
    let n = projected.len();
    if n < 2 {
        return;
    }
    let mut last: Option<(isize, isize)> = None;
    let mut k: usize = 0;
    while k < n
        invariant
            k <= n,
            n == projected@.len(),
            n >= 2,
            fb0.wf(),
            fb@.wf(),
            fb@ == trail_drawn(fb0, projected@.take(k as int), color, depth),
            k == 0 ==> last.is_none(),
            k > 0 ==> last == projected@[k - 1],
        decreases n - k,
    {
        let pix_opt = projected[k];
        proof {
            lemma_trail_drawn_wf(fb0, projected@.take(k as int), color, depth);
            assert(projected@.take(k + 1).drop_last() =~= projected@.take(k as int));
        }
        match pix_opt {
            Some(pix) => {
                match last {
                    Some(prev) => {
                        draw_line_2d_depth(fb, prev.0, prev.1, pix.0, pix.1, color, depth);
                    },
                    None => {},
                }
                last = Some(pix);
            },
            None => {
                last = None;
            },
        }
        k = k + 1;
    }
    assert(projected@.take(n as int) =~= projected@);
}

} // verus!
