//! A cube-map sky: six square-ish images, one per axis direction.
use vstd::prelude::*;

use crate::color::{channel, rgb_hex, lemma_channels_of_rgb_hex};
use crate::framebuffer::{Framebuffer, FrameView, FAR_DEPTH, lemma_pixel_index_in_range};

verus! {

/// One face of the cube map: `w` by `h` pixels of `0xRRGGBB`, row-major.
pub struct ImageFace {
    pub w: usize,
    pub h: usize,
    pub data: Vec<u32>,
}

impl ImageFace {
    pub open spec fn wf(&self) -> bool {
        self.data@.len() == self.w * self.h
    }

    /// The packed color of the `k`-th pixel of an RGBA byte image.
    pub open spec fn rgba_pixel(rgba: Seq<u8>, k: int) -> u32 {
        rgb_hex(rgba[4 * k] as u32, rgba[4 * k + 1] as u32, rgba[4 * k + 2] as u32)
    }

    /// Builds a face from `w * h` RGBA pixels, keeping red, green and blue and
    /// dropping alpha.
    pub fn from_rgba(w: usize, h: usize, rgba: &[u8]) -> (face: ImageFace)
        requires
            rgba@.len() == 4 * w * h,
        ensures
            face.wf(),
            face.w == w,
            face.h == h,
            forall|k: int|
                0 <= k < w * h ==> #[trigger] face.data@[k] == ImageFace::rgba_pixel(rgba@, k),
    {
        let total = rgba.len();
        let n = total / 4;
        assert(n == w * h && rgba@.len() == 4 * n) by (nonlinear_arith)
            requires
                n == rgba@.len() / 4,
                rgba@.len() == 4 * w * h,
        ;
        let mut data: Vec<u32> = Vec::with_capacity(n);
        let mut k: usize = 0;
        while k < n
            invariant
                k <= n,
                n == w * h,
                rgba@.len() == 4 * n,
                total == rgba@.len(),
                data@.len() == k,
                forall|m: int| 0 <= m < k ==> #[trigger] data@[m] == ImageFace::rgba_pixel(rgba@, m),
            decreases n - k,
        {
            let r = rgba[4 * k] as u32;
            let g = rgba[4 * k + 1] as u32;
            let b = rgba[4 * k + 2] as u32;
            data.push((r << 16u32) | (g << 8u32) | b);
            k = k + 1;
        }
        ImageFace { w, h, data }
    }
}

/// A packed face pixel gives back the red, green and blue bytes it was made from.
pub proof fn lemma_rgba_pixel_channels(rgba: Seq<u8>, k: int)
    requires
        0 <= k,
        4 * k + 2 < rgba.len(),
    ensures
        channel(ImageFace::rgba_pixel(rgba, k), 16) == rgba[4 * k] as u32,
        channel(ImageFace::rgba_pixel(rgba, k), 8) == rgba[4 * k + 1] as u32,
        channel(ImageFace::rgba_pixel(rgba, k), 0) == rgba[4 * k + 2] as u32,
{
    lemma_channels_of_rgb_hex(rgba[4 * k] as u32, rgba[4 * k + 1] as u32, rgba[4 * k + 2] as u32);
}

/// Which pixel of which face a screen pixel shows: `face` in `0..6`, ordered
/// +X, -X, +Y, -Y, +Z, -Z, and a pixel `(ix, iy)` of that face.
#[derive(Clone, Copy, Debug, PartialEq, Eq, Structural)]
pub struct SkyTexel {
    pub face: usize,
    pub ix: usize,
    pub iy: usize,
}

/// The six faces of the sky, ordered +X, -X, +Y, -Y, +Z, -Z.
pub struct Skybox {
    faces: [ImageFace; 6],
}

impl Skybox {
    #[verifier::type_invariant]
    closed spec fn faces_wf(self) -> bool {
        forall|i: int| 0 <= i < 6 ==> (#[trigger] self.faces[i]).wf()
    }

    /// Face `i` of the sky.
    pub closed spec fn face(self, i: int) -> ImageFace {
        self.faces[i]
    }

    /// `t` names a pixel that exists.
    pub open spec fn texel_valid(self, t: SkyTexel) -> bool {
        &&& t.face < 6
        &&& t.ix < self.face(t.face as int).w
        &&& t.iy < self.face(t.face as int).h
    }

    /// The color of the pixel that `t` names.
    pub open spec fn texel_color(self, t: SkyTexel) -> u32 {
        let f = self.face(t.face as int);
        f.data@[t.iy * f.w + t.ix]
    }

    /// Every face is read the same way: the texel at `(ix, iy)` of face `f` is
    /// that face's pixel at row-major index `iy * w + ix`, and that index lies
    /// inside the face's data.
    pub proof fn lemma_texel_row_major(self, t: SkyTexel)
        requires
            self.texel_valid(t),
        ensures
            self.texel_color(t) == self.face(t.face as int).data@[t.iy * self.face(
                t.face as int,
            ).w + t.ix],
            0 <= t.iy * self.face(t.face as int).w + t.ix < self.face(t.face as int).w * self.face(
                t.face as int,
            ).h,
    {
        lemma_pixel_index_in_range(
            t.ix as int,
            t.iy as int,
            self.face(t.face as int).w as int,
            self.face(t.face as int).h as int,
        );
    }

    pub fn from_faces(
        px: ImageFace,
        nx: ImageFace,
        py: ImageFace,
        ny: ImageFace,
        pz: ImageFace,
        nz: ImageFace,
    ) -> (sky: Skybox)
        requires
            px.wf(),
            nx.wf(),
            py.wf(),
            ny.wf(),
            pz.wf(),
            nz.wf(),
        ensures
            sky.face(0) == px,
            sky.face(1) == nx,
            sky.face(2) == py,
            sky.face(3) == ny,
            sky.face(4) == pz,
            sky.face(5) == nz,
    {
        Skybox { faces: [px, nx, py, ny, pz, nz] }
    }

    /// Width and height of face `face`.
    pub fn face_dims(&self, face: usize) -> (dims: (usize, usize))
        requires
            face < 6,
        ensures
            dims == (self.face(face as int).w, self.face(face as int).h),
    {
        (self.faces[face].w, self.faces[face].h)
    }

    /// The color of the pixel `t` names.
    pub fn texel(&self, t: SkyTexel) -> (c: u32)
        requires
            self.texel_valid(t),
        ensures
            c == self.texel_color(t),
            c == self.face(t.face as int).data@[t.iy * self.face(t.face as int).w + t.ix],
    {
        proof {
            use_type_invariant(self);
        }
        let f = &self.faces[t.face];
        proof {
            assert(self.faces[t.face as int].wf());
            lemma_pixel_index_in_range(t.ix as int, t.iy as int, f.w as int, f.h as int);
        }
        // the length is a usize, which bounds the index computed below
        let _len = f.data.len();
        assert(t.iy * f.w <= t.iy * f.w + t.ix);
        f.data[t.iy * f.w + t.ix]
    }

    /// Paints the sky behind everything: screen pixel `k` (row-major) gets the
    /// color of `lookup[k]` and the far depth.
    pub fn draw(&self, fb: &mut Framebuffer, lookup: &Vec<SkyTexel>)
        requires
            old(fb)@.wf(),
            lookup@.len() == old(fb)@.color.len(),
            forall|k: int| 0 <= k < lookup@.len() ==> self.texel_valid(#[trigger] lookup@[k]),
        ensures
            final(fb)@.wf(),
            final(fb)@.width == old(fb)@.width,
            final(fb)@.height == old(fb)@.height,
            final(fb)@.background == old(fb)@.background,
            final(fb)@.current == old(fb)@.current,
            final(fb)@.color == Seq::new(
                old(fb)@.color.len(),
                |k: int| self.texel_color(lookup@[k]),
            ),
            final(fb)@.depth == Seq::new(old(fb)@.depth.len(), |k: int| FAR_DEPTH),
            forall|k: int|
                0 <= k < lookup@.len() ==> #[trigger] final(fb)@.color[k] == self.face(
                    lookup@[k].face as int,
                ).data@[lookup@[k].iy * self.face(lookup@[k].face as int).w + lookup@[k].ix],
    {
        let n = lookup.len();
        let mut k: usize = 0;
        while k < n
            invariant
                k <= n,
                n == lookup@.len(),
                fb@.wf(),
                fb@.width == old(fb)@.width,
                fb@.height == old(fb)@.height,
                fb@.background == old(fb)@.background,
                fb@.current == old(fb)@.current,
                fb@.color.len() == n,
                forall|m: int| 0 <= m < n ==> self.texel_valid(#[trigger] lookup@[m]),
                forall|m: int| 0 <= m < k ==> #[trigger] fb@.color[m] == self.texel_color(lookup@[m]),
                forall|m: int| 0 <= m < k ==> #[trigger] fb@.depth[m] == FAR_DEPTH,
            decreases n - k,
        {
            let c = self.texel(lookup[k]);
            fb.set_sky_pixel(k, c);
            k = k + 1;
        }
        assert(fb@.color =~= Seq::new(old(fb)@.color.len(), |k: int| self.texel_color(lookup@[k])));
        assert(fb@.depth =~= Seq::new(old(fb)@.depth.len(), |k: int| FAR_DEPTH));
    }
}

} // verus!
