//! A color buffer with a depth buffer beside it.
//!
//! Depths are held as order keys: `depth_key` maps the bit pattern of an `f32`
//! depth to a `u32` whose integer order is the float order, so the depth test
//! `depth < zbuffer[idx]` becomes a comparison of keys.
use vstd::prelude::*;

use crate::color::{channel, rgb_hex, lemma_channels_of_rgb_hex};

verus! {

/// Depth key of `f32::INFINITY`: the depth of an empty pixel.
pub const FAR_DEPTH: u32 = 0xFF80_0000u32;

/// Key given to NaN depths; no key compares below it, so a NaN depth never passes a depth test.
pub const NAN_DEPTH: u32 = 0xFFFF_FFFFu32;

/// The bit pattern of an `f32` is a NaN.
pub open spec fn f32_bits_is_nan(bits: u32) -> bool {
    (bits & 0x7FFF_FFFFu32) > 0x7F80_0000u32
}

/// IEEE-754 orders the non-NaN values of a format by the sign-magnitude integer
/// of their bit patterns (both zeros are 0).
pub open spec fn f32_bits_order(bits: u32) -> int {
    if bits & 0x8000_0000u32 != 0 {
        -((bits & 0x7FFF_FFFFu32) as int)
    } else {
        (bits & 0x7FFF_FFFFu32) as int
    }
}

/// `a < b` on the two `f32` values whose bit patterns these are.
pub open spec fn f32_bits_lt(a: u32, b: u32) -> bool {
    !f32_bits_is_nan(a) && !f32_bits_is_nan(b) && f32_bits_order(a) < f32_bits_order(b)
}

pub open spec fn spec_depth_key(bits: u32) -> u32 {
    if f32_bits_is_nan(bits) {
        NAN_DEPTH
    } else {
        (0x8000_0000int + f32_bits_order(bits)) as u32
    }
}

/// The order key of the `f32` depth whose bit pattern is `bits`.
pub fn depth_key(bits: u32) -> (key: u32)
    ensures
        key == spec_depth_key(bits),
        !f32_bits_is_nan(bits) ==> key <= FAR_DEPTH,
{
    let mag = bits & 0x7FFF_FFFFu32;
    assert(mag <= 0x7FFF_FFFF) by (bit_vector)
        requires
            mag == bits & 0x7FFF_FFFFu32,
    ;
    if mag > 0x7F80_0000u32 {
        NAN_DEPTH
    } else if bits & 0x8000_0000u32 != 0 {
        0x8000_0000u32 - mag
    } else {
        0x8000_0000u32 + mag
    }
}

/// The depth keys order depths as the float comparison `<` does, whenever the
/// depth compared against is not NaN (a depth buffer never holds a NaN).
pub proof fn lemma_depth_key_orders_as_f32(a: u32, b: u32)
    requires
        !f32_bits_is_nan(b),
    ensures
        f32_bits_lt(a, b) <==> spec_depth_key(a) < spec_depth_key(b),
        !f32_bits_is_nan(a) ==> (f32_bits_order(a) == f32_bits_order(b) <==> spec_depth_key(a)
            == spec_depth_key(b)),
{
}

/// What a framebuffer holds: its size, the `0xRRGGBB` colors and the depth keys
/// of its pixels in row-major order, and its two drawing colors.
#[verifier::ext_equal]
pub struct FrameView {
    pub width: nat,
    pub height: nat,
    pub color: Seq<u32>,
    pub depth: Seq<u32>,
    pub background: u32,
    pub current: u32,
}

/// Each channel of `src` added to that of `dst`, saturating at 255.
pub open spec fn add_saturate(dst: u32, src: u32) -> u32 {
    rgb_hex(
        sat_channel(channel(dst, 16) + channel(src, 16)),
        sat_channel(channel(dst, 8) + channel(src, 8)),
        sat_channel(channel(dst, 0) + channel(src, 0)),
    )
}

pub open spec fn sat_channel(v: int) -> u32 {
    if v > 255 {
        255u32
    } else {
        v as u32
    }
}

impl FrameView {
    pub open spec fn wf(self) -> bool {
        &&& self.color.len() == self.width * self.height
        &&& self.depth.len() == self.width * self.height
        &&& forall|i: int| 0 <= i < self.depth.len() ==> #[trigger] self.depth[i] <= FAR_DEPTH
    }

    pub open spec fn contains(self, x: int, y: int) -> bool {
        0 <= x < self.width && 0 <= y < self.height
    }

    pub open spec fn pixel_index(self, x: int, y: int) -> int {
        y * self.width + x
    }

    /// The depth-tested write of `color` at depth `depth` to pixel `(x, y)`.
    pub open spec fn plotted(self, x: int, y: int, color: u32, depth: u32) -> FrameView {
        let idx = self.pixel_index(x, y);
        if self.contains(x, y) && depth < self.depth[idx] {
            FrameView {
                color: self.color.update(idx, color),
                depth: self.depth.update(idx, depth),
                ..self
            }
        } else {
            self
        }
    }

    /// The write of the current color to pixel `(x, y)`, with no depth test.
    pub open spec fn pointed(self, x: int, y: int) -> FrameView {
        if self.contains(x, y) {
            FrameView { color: self.color.update(self.pixel_index(x, y), self.current), ..self }
        } else {
            self
        }
    }

    /// The additive blend of `color` into pixel `(x, y)`; depths are left as they are.
    pub open spec fn blended(self, x: int, y: int, color: u32) -> FrameView {
        let idx = self.pixel_index(x, y);
        if self.contains(x, y) {
            FrameView { color: self.color.update(idx, add_saturate(self.color[idx], color)), ..self }
        } else {
            self
        }
    }

    /// Every pixel set to the background color and the far depth.
    pub open spec fn cleared(self) -> FrameView {
        FrameView {
            color: Seq::new(self.color.len(), |i: int| self.background),
            depth: Seq::new(self.depth.len(), |i: int| FAR_DEPTH),
            ..self
        }
    }
}

/// A fragment ready for the framebuffer: a pixel (possibly off screen), its
/// `0xRRGGBB` color and its depth key.
#[derive(Clone, Copy, Debug, PartialEq, Eq, Structural)]
pub struct PixelFragment {
    pub x: isize,
    pub y: isize,
    pub color: u32,
    pub depth: u32,
}

/// The depth-tested plots of `color` at depth `depth` at each of `pts`, in order.
pub open spec fn plot_points(v: FrameView, pts: Seq<(int, int)>, color: u32, depth: u32) -> FrameView
    decreases pts.len(),
{
    if pts.len() == 0 {
        v
    } else {
        plot_points(v, pts.drop_last(), color, depth).plotted(pts.last().0, pts.last().1, color, depth)
    }
}

/// The fragments written in order: blended when `additive`, depth tested otherwise.
pub open spec fn fragments_drawn(v: FrameView, frags: Seq<PixelFragment>, additive: bool) -> FrameView
    decreases frags.len(),
{
    if frags.len() == 0 {
        v
    } else {
        let before = fragments_drawn(v, frags.drop_last(), additive);
        let f = frags.last();
        if additive {
            before.blended(f.x as int, f.y as int, f.color)
        } else {
            before.plotted(f.x as int, f.y as int, f.color, f.depth)
        }
    }
}

/// Plotting points keeps a framebuffer well formed, its size and its drawing colors.
pub proof fn lemma_plot_points_wf(v: FrameView, pts: Seq<(int, int)>, color: u32, depth: u32)
    requires
        v.wf(),
    ensures
        plot_points(v, pts, color, depth).wf(),
        plot_points(v, pts, color, depth).width == v.width,
        plot_points(v, pts, color, depth).height == v.height,
        plot_points(v, pts, color, depth).background == v.background,
        plot_points(v, pts, color, depth).current == v.current,
    decreases pts.len(),
{
    if pts.len() > 0 {
        lemma_plot_points_wf(v, pts.drop_last(), color, depth);
        lemma_plot_idempotent_and_monotone(
            plot_points(v, pts.drop_last(), color, depth),
            pts.last().0,
            pts.last().1,
            color,
            depth,
        );
    }
}

/// `y * w + x` is a pixel index of a `w` by `h` buffer when `(x, y)` lies inside it.
pub proof fn lemma_pixel_index_in_range(x: int, y: int, w: int, h: int)
    requires
        0 <= x < w,
        0 <= y < h,
    ensures
        0 <= y * w + x < w * h,
{
    assert(0 <= y * w + x < w * h) by (nonlinear_arith)
        requires
            0 <= x < w,
            0 <= y < h,
    ;
}

/// A `width` by `height` image of `0xRRGGBB` pixels with a depth key per pixel.
pub struct Framebuffer {
    pub width: usize,
    pub height: usize,
    pub buffer: Vec<u32>,
    pub zbuffer: Vec<u32>,
    background_color: u32,
    current_color: u32,
}

impl View for Framebuffer {
    type V = FrameView;

    closed spec fn view(&self) -> FrameView {
        FrameView {
            width: self.width as nat,
            height: self.height as nat,
            color: self.buffer@,
            depth: self.zbuffer@,
            background: self.background_color,
            current: self.current_color,
        }
    }
}

impl Framebuffer {
    /// A framebuffer of black pixels at the far depth, drawing in white on black.
    pub fn new(width: usize, height: usize) -> (fb: Framebuffer)
        requires
            width * height <= usize::MAX,
        ensures
            fb@.wf(),
            fb@.width == width,
            fb@.height == height,
            fb@.color == Seq::new((width * height) as nat, |i: int| 0u32),
            fb@.depth == Seq::new((width * height) as nat, |i: int| FAR_DEPTH),
            fb@.background == 0,
            fb@.current == 0xFF_FFFF,
    {
        let n = width * height;
        let mut buffer: Vec<u32> = Vec::with_capacity(n);
        let mut zbuffer: Vec<u32> = Vec::with_capacity(n);
        let mut i: usize = 0;
        while i < n
            invariant
                i <= n,
                buffer@ == Seq::new(i as nat, |k: int| 0u32),
                zbuffer@ == Seq::new(i as nat, |k: int| FAR_DEPTH),
            decreases n - i,
        {
            buffer.push(0);
            zbuffer.push(FAR_DEPTH);
            i = i + 1;
        }
        Framebuffer {
            width,
            height,
            buffer,
            zbuffer,
            background_color: 0x000000,
            current_color: 0xFFFFFF,
        }
    }

    /// Sets every pixel to the background color and every depth to the far depth.
    pub fn clear(&mut self)
        requires
            old(self)@.wf(),
        ensures
            final(self)@ == old(self)@.cleared(),
            final(self)@.wf(),
    {
        let n = self.buffer.len();
        let mut i: usize = 0;
        while i < n
            invariant
                i <= n,
                n == self.buffer@.len(),
                self.width == old(self).width,
                self.height == old(self).height,
                self.background_color == old(self).background_color,
                self.current_color == old(self).current_color,
                self.zbuffer@ == old(self).zbuffer@,
                self.buffer@.len() == old(self).buffer@.len(),
                forall|k: int| 0 <= k < i ==> self.buffer@[k] == self.background_color,
            decreases n - i,
        {
            let bg = self.background_color;
            self.buffer.set(i, bg);
            i = i + 1;
        }
        let m = self.zbuffer.len();
        let mut j: usize = 0;
        while j < m
            invariant
                j <= m,
                m == self.zbuffer@.len(),
                self.width == old(self).width,
                self.height == old(self).height,
                self.background_color == old(self).background_color,
                self.current_color == old(self).current_color,
                self.zbuffer@.len() == old(self).zbuffer@.len(),
                self.buffer@ == old(self)@.cleared().color,
                forall|k: int| 0 <= k < j ==> self.zbuffer@[k] == FAR_DEPTH,
            decreases m - j,
        {
            self.zbuffer.set(j, FAR_DEPTH);
            j = j + 1;
        }
        assert(self.zbuffer@ =~= old(self)@.cleared().depth);
        assert(self@ =~= old(self)@.cleared());
    }

    /// Writes the current color to `(x, y)` without a depth test; outside the buffer nothing happens.
    pub fn point(&mut self, x: usize, y: usize)
        requires
            old(self)@.wf(),
        ensures
            final(self)@ == old(self)@.pointed(x as int, y as int),
            final(self)@.wf(),
    {
        if x < self.width && y < self.height {
            // the length is a usize, which bounds the index computed below
            let _len = self.buffer.len();
            proof {
                lemma_pixel_index_in_range(x as int, y as int, self.width as int, self.height as int);
                assert(self.buffer@.len() == self.width * self.height);
                assert(y * self.width <= y * self.width + x);
            }
            let idx = y * self.width + x;
            let c = self.current_color;
            self.buffer.set(idx, c);
        }
    }

    /// Writes `color` at `(x, y)` when `depth` is nearer than the depth held there,
    /// and then keeps `depth` as that pixel's depth; outside the buffer nothing happens.
    pub fn plot(&mut self, x: usize, y: usize, color: u32, depth: u32)
        requires
            old(self)@.wf(),
        ensures
            final(self)@ == old(self)@.plotted(x as int, y as int, color, depth),
            final(self)@.wf(),
            x < old(self)@.width && y < old(self)@.height && depth < old(self)@.depth[y * old(
                self,
            )@.width + x] ==> {
                &&& final(self)@.color[y * old(self)@.width + x] == color
                &&& final(self)@.depth[y * old(self)@.width + x] == depth
            },
            !(x < old(self)@.width && y < old(self)@.height && depth < old(self)@.depth[y * old(
                self,
            )@.width + x]) ==> final(self)@ == old(self)@,
    {
        proof {
            lemma_plot_writes(old(self)@, x as int, y as int, color, depth);
        }
        if x < self.width && y < self.height {
            // the length is a usize, which bounds the index computed below
            let _len = self.buffer.len();
            proof {
                lemma_pixel_index_in_range(x as int, y as int, self.width as int, self.height as int);
                assert(self.buffer@.len() == self.width * self.height);
                assert(y * self.width <= y * self.width + x);
            }
            let idx = y * self.width + x;
            if depth < self.zbuffer[idx] {
                self.zbuffer.set(idx, depth);
                self.buffer.set(idx, color);
            }
        }
    }

    pub fn width(&self) -> (w: usize)
        ensures
            w == self@.width,
    {
        self.width
    }

    pub fn height(&self) -> (h: usize)
        ensures
            h == self@.height,
    {
        self.height
    }

    /// Writes each fragment in order: blended when `additive`, depth tested
    /// otherwise; fragments off the buffer are skipped.
    pub fn draw_fragments(&mut self, frags: &Vec<PixelFragment>, additive: bool)
        requires
            old(self)@.wf(),
        ensures
            final(self)@ == fragments_drawn(old(self)@, frags@, additive),
            final(self)@.wf(),
    {
        let n = frags.len();
        let mut k: usize = 0;
        while k < n
            invariant
                k <= n,
                n == frags@.len(),
                self@ == fragments_drawn(old(self)@, frags@.take(k as int), additive),
                self@.wf(),
            decreases n - k,
        {
            let f = frags[k];
            proof {
                assert(frags@.take(k + 1).drop_last() =~= frags@.take(k as int));
                assert(frags@.take(k + 1).last() == f);
            }
            if f.x >= 0 && f.y >= 0 && (f.x as usize) < self.width && (f.y as usize) < self.height {
                if additive {
                    self.blend_add(f.x as usize, f.y as usize, f.color);
                } else {
                    self.plot(f.x as usize, f.y as usize, f.color, f.depth);
                }
            }
            k = k + 1;
        }
        assert(frags@.take(n as int) =~= frags@);
    }

    /// Writes `color` at row-major index `idx` and resets its depth to the far depth.
    pub(crate) fn set_sky_pixel(&mut self, idx: usize, color: u32)
        requires
            old(self)@.wf(),
            idx < old(self)@.color.len(),
        ensures
            final(self)@ == (FrameView {
                color: old(self)@.color.update(idx as int, color),
                depth: old(self)@.depth.update(idx as int, FAR_DEPTH),
                ..old(self)@
            }),
            final(self)@.wf(),
    {
        self.buffer.set(idx, color);
        self.zbuffer.set(idx, FAR_DEPTH);
    }

    pub fn set_background_color(&mut self, color: u32)
        ensures
            final(self)@ == (FrameView { background: color, ..old(self)@ }),
    {
        self.background_color = color;
    }

    pub fn set_current_color(&mut self, color: u32)
        ensures
            final(self)@ == (FrameView { current: color, ..old(self)@ }),
    {
        self.current_color = color;
    }

    /// Adds each channel of `color` to the pixel at `(x, y)`, saturating at 255.
    /// The pixel's depth is not changed; outside the buffer nothing happens.
    pub fn blend_add(&mut self, x: usize, y: usize, color: u32)
        requires
            old(self)@.wf(),
        ensures
            final(self)@ == old(self)@.blended(x as int, y as int, color),
            final(self)@.depth == old(self)@.depth,
            final(self)@.wf(),
            x < old(self)@.width && y < old(self)@.height ==> {
                let idx = y * old(self)@.width + x;
                let before = old(self)@.color[idx];
                let after = final(self)@.color[idx];
                &&& channel(after, 16) == (if channel(before, 16) + channel(color, 16) <= 255 {
                    channel(before, 16) + channel(color, 16)
                } else {
                    255
                })
                &&& channel(after, 8) == (if channel(before, 8) + channel(color, 8) <= 255 {
                    channel(before, 8) + channel(color, 8)
                } else {
                    255
                })
                &&& channel(after, 0) == (if channel(before, 0) + channel(color, 0) <= 255 {
                    channel(before, 0) + channel(color, 0)
                } else {
                    255
                })
                &&& after <= 0xFF_FFFF
            },
            !(x < old(self)@.width && y < old(self)@.height) ==> final(self)@ == old(self)@,
    {
        if x < self.width && y < self.height {
            // the length is a usize, which bounds the index computed below
            let _len = self.buffer.len();
            proof {
                lemma_pixel_index_in_range(x as int, y as int, self.width as int, self.height as int);
                assert(self.buffer@.len() == self.width * self.height);
                assert(y * self.width <= y * self.width + x);
            }
            let idx = y * self.width + x;
            let dst = self.buffer[idx];
            proof {
                lemma_add_saturate_channels(dst, color);
            }
            let added = add_saturate_exec(dst, color);
            self.buffer.set(idx, added);
        }
    }
}

/// The saturating channel sum is commutative, and adding two colors in either
/// order gives the same result: additive layers may be drawn in any order.
pub proof fn lemma_add_saturate_commutes(d: u32, c1: u32, c2: u32)
    ensures
        add_saturate(c1, c2) == add_saturate(c2, c1),
        add_saturate(add_saturate(d, c1), c2) == add_saturate(add_saturate(d, c2), c1),
{
    lemma_sat_rgb_channels(d, c1);
    lemma_sat_rgb_channels(d, c2);
}

proof fn lemma_channel_bound(h: u32)
    ensures
        channel(h, 16) <= 0xFF,
        channel(h, 8) <= 0xFF,
        channel(h, 0) <= 0xFF,
{
    assert(((h >> 16u32) & 0xFFu32) <= 0xFF) by (bit_vector);
    assert(((h >> 8u32) & 0xFFu32) <= 0xFF) by (bit_vector);
    assert(((h >> 0u32) & 0xFFu32) <= 0xFF) by (bit_vector);
}

proof fn lemma_sat_rgb_channels(d: u32, c: u32)
    ensures
        channel(add_saturate(d, c), 16) == sat_channel(channel(d, 16) + channel(c, 16)),
        channel(add_saturate(d, c), 8) == sat_channel(channel(d, 8) + channel(c, 8)),
        channel(add_saturate(d, c), 0) == sat_channel(channel(d, 0) + channel(c, 0)),
{
    lemma_channel_bound(d);
    lemma_channel_bound(c);
    lemma_channels_of_rgb_hex(
        sat_channel(channel(d, 16) + channel(c, 16)),
        sat_channel(channel(d, 8) + channel(c, 8)),
        sat_channel(channel(d, 0) + channel(c, 0)),
    );
}

/// Two additive blends into a framebuffer commute.
pub proof fn lemma_blends_commute(v: FrameView, x1: int, y1: int, c1: u32, x2: int, y2: int, c2: u32)
    requires
        v.wf(),
    ensures
        v.blended(x1, y1, c1).blended(x2, y2, c2) == v.blended(x2, y2, c2).blended(x1, y1, c1),
{
    if v.contains(x1, y1) {
        lemma_pixel_index_in_range(x1, y1, v.width as int, v.height as int);
    }
    if v.contains(x2, y2) {
        lemma_pixel_index_in_range(x2, y2, v.width as int, v.height as int);
    }
    if v.contains(x1, y1) && v.contains(x2, y2) && v.pixel_index(x1, y1) == v.pixel_index(x2,
        y2) {
        lemma_add_saturate_commutes(v.color[v.pixel_index(x1, y1)], c1, c2);
    }
    assert(v.blended(x1, y1, c1).blended(x2, y2, c2) =~= v.blended(x2, y2, c2).blended(x1, y1, c1));
}

/// Depth-tested writes are order independent: two plots give the same image in
/// either order, unless they hit the same pixel at the same depth (then the first wins).
pub proof fn lemma_plots_commute(
    v: FrameView,
    x1: int,
    y1: int,
    c1: u32,
    k1: u32,
    x2: int,
    y2: int,
    c2: u32,
    k2: u32,
)
    requires
        v.wf(),
        v.contains(x1, y1) && v.contains(x2, y2) && v.pixel_index(x1, y1) == v.pixel_index(x2, y2)
            ==> k1 != k2,
    ensures
        v.plotted(x1, y1, c1, k1).plotted(x2, y2, c2, k2) == v.plotted(x2, y2, c2, k2).plotted(
            x1,
            y1,
            c1,
            k1,
        ),
{
    if v.contains(x1, y1) {
        lemma_pixel_index_in_range(x1, y1, v.width as int, v.height as int);
    }
    if v.contains(x2, y2) {
        lemma_pixel_index_in_range(x2, y2, v.width as int, v.height as int);
    }
    assert(v.plotted(x1, y1, c1, k1).plotted(x2, y2, c2, k2) =~= v.plotted(x2, y2, c2, k2).plotted(
        x1,
        y1,
        c1,
        k1,
    ));
}

/// A plot at a pixel inside the buffer whose depth is nearer than the stored one
/// writes exactly that color and that depth there, whatever the color, and leaves
/// every other pixel alone; any other plot changes nothing.
pub proof fn lemma_plot_writes(v: FrameView, x: int, y: int, c: u32, k: u32)
    requires
        v.wf(),
    ensures
        ({
            let w = v.plotted(x, y, c, k);
            let idx = y * v.width + x;
            if 0 <= x < v.width && 0 <= y < v.height && k < v.depth[idx] {
                &&& w.color[idx] == c
                &&& w.depth[idx] == k
                &&& w.color.len() == v.color.len()
                &&& w.depth.len() == v.depth.len()
                &&& forall|i: int|
                    0 <= i < v.color.len() && i != idx ==> #[trigger] w.color[i] == v.color[i]
                        && w.depth[i] == v.depth[i]
                &&& w.width == v.width && w.height == v.height
                &&& w.background == v.background && w.current == v.current
            } else {
                w == v
            }
        }),
{
    if v.contains(x, y) {
        lemma_pixel_index_in_range(x, y, v.width as int, v.height as int);
    }
}

/// Each channel of an additive blend is the sum of the two channels, kept as is
/// up to 255 and clamped to 255 above; the blend is a 24-bit color.
pub proof fn lemma_add_saturate_channels(d: u32, s: u32)
    ensures
        channel(add_saturate(d, s), 16) == (if channel(d, 16) + channel(s, 16) <= 255 {
            channel(d, 16) + channel(s, 16)
        } else {
            255
        }),
        channel(add_saturate(d, s), 8) == (if channel(d, 8) + channel(s, 8) <= 255 {
            channel(d, 8) + channel(s, 8)
        } else {
            255
        }),
        channel(add_saturate(d, s), 0) == (if channel(d, 0) + channel(s, 0) <= 255 {
            channel(d, 0) + channel(s, 0)
        } else {
            255
        }),
        add_saturate(d, s) <= 0xFF_FFFF,
{
    lemma_sat_rgb_channels(d, s);
    lemma_channel_bound(d);
    lemma_channel_bound(s);
    lemma_channels_of_rgb_hex(
        sat_channel(channel(d, 16) + channel(s, 16)),
        sat_channel(channel(d, 8) + channel(s, 8)),
        sat_channel(channel(d, 0) + channel(s, 0)),
    );
}

/// Plotting the same fragment twice changes nothing after the first time, and a
/// plot never moves any pixel's depth farther away.
pub proof fn lemma_plot_idempotent_and_monotone(v: FrameView, x: int, y: int, c: u32, k: u32)
    requires
        v.wf(),
    ensures
        v.plotted(x, y, c, k).plotted(x, y, c, k) == v.plotted(x, y, c, k),
        v.plotted(x, y, c, k).wf(),
        forall|i: int|
            0 <= i < v.depth.len() ==> #[trigger] v.plotted(x, y, c, k).depth[i] <= v.depth[i],
{
    if v.contains(x, y) {
        lemma_pixel_index_in_range(x, y, v.width as int, v.height as int);
    }
}

fn add_saturate_exec(dst: u32, src: u32) -> (res: u32)
    ensures
        res == add_saturate(dst, src),
{
    let dr = (dst >> 16u32) & 0xFFu32;
    let dg = (dst >> 8u32) & 0xFFu32;
    let db = dst & 0xFFu32;
    let sr = (src >> 16u32) & 0xFFu32;
    let sg = (src >> 8u32) & 0xFFu32;
    let sb = src & 0xFFu32;
    assert(dst >> 0u32 == dst && src >> 0u32 == src) by (bit_vector);
    assert(dr <= 0xFF && dg <= 0xFF && db <= 0xFF && sr <= 0xFF && sg <= 0xFF && sb <= 0xFF)
        by (bit_vector)
        requires
            dr == (dst >> 16u32) & 0xFFu32,
            dg == (dst >> 8u32) & 0xFFu32,
            db == dst & 0xFFu32,
            sr == (src >> 16u32) & 0xFFu32,
            sg == (src >> 8u32) & 0xFFu32,
            sb == src & 0xFFu32,
    ;
    let nr = if dr + sr > 255 { 255u32 } else { dr + sr };
    let ng = if dg + sg > 255 { 255u32 } else { dg + sg };
    let nb = if db + sb > 255 { 255u32 } else { db + sb };
    (nr << 16u32) | (ng << 8u32) | nb
}

} // verus!
