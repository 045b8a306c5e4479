use solar_system::app::{draw_line_2d_depth, draw_trail, push_trail, Inspect, InspectState};
use solar_system::color::Color;
use solar_system::framebuffer::{depth_key, Framebuffer, PixelFragment, FAR_DEPTH, NAN_DEPTH};
use solar_system::shaders::planet::{cc, cg, gg, lc, mc, vc};
use solar_system::shaders::PlanetShader;
use solar_system::skybox::{ImageFace, SkyTexel, Skybox};

fn key(d: f32) -> u32 {
    depth_key(d.to_bits())
}

fn pixel(fb: &Framebuffer, x: usize, y: usize) -> u32 {
    fb.buffer[y * fb.width + x]
}

#[test]
fn color_from_hex_splits_channels() {
    let c = Color::from_hex(0x123456);
    assert_eq!(c, Color::new(0x12, 0x34, 0x56));
    assert_eq!(c.to_hex(), 0x123456);
}

#[test]
fn color_round_trip_drops_top_byte() {
    assert_eq!(Color::from_hex(0xFF12_3456).to_hex(), 0x12_3456);
    let c = Color::new(7, 200, 255);
    assert_eq!(Color::from_hex(c.to_hex()), c);
    assert_eq!(Color::black().to_hex(), 0);
}

#[test]
fn palette_constructors_read_hex() {
    assert_eq!(cg(0x0E6BD8), Color::new(0x0E, 0x6B, 0xD8));
    assert_eq!(cc(0x0B3D91), Color::new(0x0B, 0x3D, 0x91));
    assert_eq!(mc(0x3A3A40), Color::new(0x3A, 0x3A, 0x40));
    assert_eq!(lc(0xFF6A00), Color::new(0xFF, 0x6A, 0x00));
    assert_eq!(vc(0x14E0C7), Color::new(0x14, 0xE0, 0xC7));
    assert_eq!(gg(0xD8A100), Color::new(0xD8, 0xA1, 0x00));
}

#[test]
fn depth_key_orders_like_floats() {
    let vals = [
        f32::NEG_INFINITY, -1.0e30, -3.5, -1.0, -1.0e-30, -0.0, 0.0, 1.0e-30, 0.5, 0.999_999, 1.0,
        2.0, 1.0e30, f32::INFINITY,
    ];
    for a in vals.iter() {
        for b in vals.iter() {
            assert_eq!(a < b, key(*a) < key(*b), "{} {}", a, b);
            assert_eq!(a == b, key(*a) == key(*b), "{} {}", a, b);
        }
    }
    assert_eq!(key(f32::INFINITY), FAR_DEPTH);
    assert_eq!(key(f32::NAN), NAN_DEPTH);
    assert_eq!(key(-0.0), key(0.0));
    assert_eq!(key(0.0), 0x8000_0000);
}

#[test]
fn new_framebuffer_is_black_and_far() {
    let fb = Framebuffer::new(3, 2);
    assert_eq!(fb.width, 3);
    assert_eq!(fb.height, 2);
    assert_eq!(fb.buffer, vec![0; 6]);
    assert_eq!(fb.zbuffer, vec![FAR_DEPTH; 6]);
}

#[test]
fn plot_keeps_the_nearest_fragment() {
    let mut fb = Framebuffer::new(4, 3);
    fb.plot(2, 1, 0xAA0000, key(0.5));
    assert_eq!(pixel(&fb, 2, 1), 0xAA0000);
    assert_eq!(fb.zbuffer[1 * 4 + 2], key(0.5));
    // farther: ignored
    fb.plot(2, 1, 0x00BB00, key(0.7));
    assert_eq!(pixel(&fb, 2, 1), 0xAA0000);
    // same depth: ignored
    fb.plot(2, 1, 0x00BB00, key(0.5));
    assert_eq!(pixel(&fb, 2, 1), 0xAA0000);
    // nearer: written
    fb.plot(2, 1, 0x0000CC, key(-0.25));
    assert_eq!(pixel(&fb, 2, 1), 0x0000CC);
    assert_eq!(fb.zbuffer[6], key(-0.25));
    // NaN depth never passes
    fb.plot(0, 0, 0x123456, key(f32::NAN));
    assert_eq!(pixel(&fb, 0, 0), 0);
    // off the buffer: nothing happens
    let before = fb.buffer.clone();
    fb.plot(4, 0, 0xFFFFFF, key(0.0));
    fb.plot(0, 3, 0xFFFFFF, key(0.0));
    assert_eq!(fb.buffer, before);
}

#[test]
fn plots_commute_at_distinct_depths() {
    let mut a = Framebuffer::new(2, 2);
    let mut b = Framebuffer::new(2, 2);
    a.plot(1, 1, 0x111111, key(0.3));
    a.plot(1, 1, 0x222222, key(0.2));
    b.plot(1, 1, 0x222222, key(0.2));
    b.plot(1, 1, 0x111111, key(0.3));
    assert_eq!(a.buffer, b.buffer);
    assert_eq!(a.zbuffer, b.zbuffer);
    assert_eq!(pixel(&a, 1, 1), 0x222222);
}

#[test]
fn point_uses_current_color_without_depth() {
    let mut fb = Framebuffer::new(2, 2);
    fb.point(1, 0);
    assert_eq!(pixel(&fb, 1, 0), 0xFFFFFF);
    fb.set_current_color(0x336699);
    fb.point(0, 1);
    assert_eq!(pixel(&fb, 0, 1), 0x336699);
    assert_eq!(fb.zbuffer, vec![FAR_DEPTH; 4]);
    fb.point(2, 0);
    assert_eq!(fb.buffer, vec![0, 0xFFFFFF, 0x336699, 0]);
}

#[test]
fn clear_resets_color_and_depth() {
    let mut fb = Framebuffer::new(2, 2);
    fb.plot(0, 0, 0xABCDEF, key(0.1));
    fb.set_background_color(0x333355);
    fb.clear();
    assert_eq!(fb.buffer, vec![0x333355; 4]);
    assert_eq!(fb.zbuffer, vec![FAR_DEPTH; 4]);
}

#[test]
fn blend_add_saturates_each_channel() {
    let mut fb = Framebuffer::new(2, 1);
    fb.blend_add(0, 0, 0x102030);
    fb.blend_add(0, 0, 0x010203);
    assert_eq!(pixel(&fb, 0, 0), 0x112233);
    fb.plot(1, 0, 0x80FF10, key(0.5));
    fb.blend_add(1, 0, 0x9001F0);
    assert_eq!(pixel(&fb, 1, 0), 0xFFFFFF);
    // depth untouched by blending
    assert_eq!(fb.zbuffer, vec![FAR_DEPTH, key(0.5)]);
    // blending black changes nothing; off-buffer blends are ignored
    fb.blend_add(0, 0, 0);
    fb.blend_add(5, 0, 0xFFFFFF);
    assert_eq!(pixel(&fb, 0, 0), 0x112233);
}

#[test]
fn blends_commute() {
    let mut a = Framebuffer::new(1, 1);
    let mut b = Framebuffer::new(1, 1);
    a.blend_add(0, 0, 0xF01020);
    a.blend_add(0, 0, 0x30F040);
    b.blend_add(0, 0, 0x30F040);
    b.blend_add(0, 0, 0xF01020);
    assert_eq!(a.buffer, b.buffer);
    assert_eq!(a.buffer[0], 0xFFFF60);
}

#[test]
fn draw_fragments_opaque_and_additive() {
    let mut fb = Framebuffer::new(3, 1);
    let frags = vec![
        PixelFragment { x: 0, y: 0, color: 0x100000, depth: key(0.5) },
        PixelFragment { x: 0, y: 0, color: 0x200000, depth: key(0.4) },
        PixelFragment { x: -1, y: 0, color: 0xFFFFFF, depth: key(0.0) },
        PixelFragment { x: 3, y: 0, color: 0xFFFFFF, depth: key(0.0) },
        PixelFragment { x: 2, y: 0, color: 0x000010, depth: key(0.9) },
    ];
    fb.draw_fragments(&frags, false);
    assert_eq!(fb.buffer, vec![0x200000, 0, 0x000010]);
    fb.draw_fragments(&frags, true);
    assert_eq!(fb.buffer, vec![0x500000, 0, 0x000020]);
    assert_eq!(fb.zbuffer, vec![key(0.4), FAR_DEPTH, key(0.9)]);
}

#[test]
fn line_x_major_fragments() {
    let frags = solar_system::line::line(0, 0, 5, 2, 0, 0);
    let got: Vec<(i32, i32, i64, i64)> = frags.iter().map(|f| (f.x, f.y, f.t_num, f.t_den)).collect();
    assert_eq!(
        got,
        vec![(0, 0, 0, 5), (1, 0, 1, 5), (2, 1, 2, 5), (3, 1, 3, 5), (4, 2, 4, 5), (5, 2, 5, 5)]
    );
}

#[test]
fn line_y_major_backwards_fragments() {
    let frags = solar_system::line::line(2, 7, -1, 1, 1, 6);
    let got: Vec<(i32, i32, i64, i64)> = frags.iter().map(|f| (f.x, f.y, f.t_num, f.t_den)).collect();
    assert_eq!(
        got,
        vec![
            (2, 7, 1, -5),
            (2, 6, 0, -5),
            (1, 5, -1, -5),
            (1, 4, -2, -5),
            (0, 3, -3, -5),
            (0, 2, -4, -5),
            (-1, 1, -5, -5)
        ]
    );
}

#[test]
fn line_single_point_has_unit_denominator() {
    let frags = solar_system::line::line(3, 3, 3, 3, 3, 3);
    assert_eq!(frags.len(), 1);
    assert_eq!((frags[0].x, frags[0].y, frags[0].t_num, frags[0].t_den), (3, 3, 0, 1));
}

#[test]
fn line_extremes_do_not_overflow() {
    let frags = solar_system::line::line(i32::MAX, 0, i32::MAX - 3, 0, i32::MIN, 0);
    assert_eq!(frags.len(), 4);
    assert_eq!(frags[3].x, i32::MAX - 3);
    assert_eq!(frags[0].t_num, i32::MAX as i64 - i32::MIN as i64);
}

#[test]
fn line_endpoints_and_adjacency() {
    for &(x0, y0, x1, y1) in [(0, 0, 7, 3), (5, -2, -4, 9), (1, 1, 1, -6), (-3, 4, 8, 4), (2, 2, 9, 9)].iter() {
        let f = solar_system::line::line(x0, y0, x1, y1, x0, y0);
        let n = ((x1 - x0).abs().max((y1 - y0).abs()) + 1) as usize;
        assert_eq!(f.len(), n);
        assert_eq!((f[0].x, f[0].y), (x0, y0));
        assert_eq!((f[n - 1].x, f[n - 1].y), (x1, y1));
        for k in 1..n {
            assert!((f[k].x - f[k - 1].x).abs() <= 1 && (f[k].y - f[k - 1].y).abs() <= 1);
            assert!((f[k].x, f[k].y) != (f[k - 1].x, f[k - 1].y));
        }
    }
}

fn lit(fb: &Framebuffer, color: u32) -> Vec<(usize, usize)> {
    let mut out = Vec::new();
    for y in 0..fb.height {
        for x in 0..fb.width {
            if pixel(fb, x, y) == color {
                out.push((x, y));
            }
        }
    }
    out
}

#[test]
fn trail_line_pixels() {
    let mut fb = Framebuffer::new(6, 4);
    draw_line_2d_depth(&mut fb, 0, 0, 4, 2, 0xE8B84A, key(0.999_999));
    assert_eq!(lit(&fb, 0xE8B84A), vec![(0, 0), (1, 1), (2, 1), (3, 2), (4, 2)]);
    assert_eq!(fb.zbuffer[0], key(0.999_999));
}

#[test]
fn trail_line_clips_and_depth_tests() {
    let mut fb = Framebuffer::new(3, 3);
    fb.plot(1, 0, 0x0000FF, key(0.2));
    draw_line_2d_depth(&mut fb, -2, 1, 1, -1, 0xFF0000, key(0.5));
    // the walk visits (-2,1), (-1,0), (0,0), (1,-1): only (0,0) is on screen
    assert_eq!(lit(&fb, 0xFF0000), vec![(0, 0)]);
    draw_line_2d_depth(&mut fb, 0, 0, 2, 0, 0x00FF00, key(0.3));
    // (1,0) is nearer already; (0,0) was at 0.5 so it is overwritten
    assert_eq!(lit(&fb, 0x00FF00), vec![(0, 0), (2, 0)]);
    assert_eq!(pixel(&fb, 1, 0), 0x0000FF);
}

#[test]
fn trail_breaks_at_unprojected_points() {
    let mut fb = Framebuffer::new(5, 5);
    let pts = vec![Some((0, 0)), Some((3, 0)), None, Some((3, 3)), Some((3, 1))];
    draw_trail(&mut fb, &pts, 0x44AAFF, key(0.999_999));
    assert_eq!(
        lit(&fb, 0x44AAFF),
        vec![(0, 0), (1, 0), (2, 0), (3, 0), (3, 1), (3, 2), (3, 3)]
    );
}

#[test]
fn trail_of_one_point_draws_nothing() {
    let mut fb = Framebuffer::new(2, 2);
    draw_trail(&mut fb, &vec![Some((1, 1))], 0xFFAA44, key(0.5));
    draw_trail(&mut fb, &vec![], 0xFFAA44, key(0.5));
    assert_eq!(fb.buffer, vec![0; 4]);
}

#[test]
fn push_trail_keeps_the_newest_points() {
    let mut t: Vec<u32> = Vec::new();
    for p in 1..=5 {
        push_trail(&mut t, p, 3);
        assert!(t.len() <= 3);
        assert_eq!(*t.last().unwrap(), p);
    }
    assert_eq!(t, vec![3, 4, 5]);
    let mut z: Vec<u32> = Vec::new();
    push_trail(&mut z, 9, 0);
    assert!(z.is_empty());
}

#[test]
fn inspect_modes() {
    assert!(Inspect::All.shows(Inspect::Gas));
    assert!(Inspect::Gas.shows(Inspect::Gas));
    assert!(!Inspect::Gas.shows(Inspect::Star));
    assert!(!Inspect::All.is_frozen());
    assert!(Inspect::Lava.is_frozen());
}

#[test]
fn hotkeys_select_and_reframe_once() {
    let mut s = InspectState::new();
    assert_eq!(s.handle_hotkeys([false; 7]), None);
    assert_eq!(s.inspect, Inspect::All);
    let mut keys = [false; 7];
    keys[3] = true;
    assert_eq!(s.handle_hotkeys(keys), Some(Inspect::Gas));
    assert_eq!(s.prev_inspect, Inspect::Gas);
    // holding the key again does not reframe
    assert_eq!(s.handle_hotkeys(keys), None);
    // the highest held key wins
    keys[1] = true;
    keys[5] = true;
    assert_eq!(s.handle_hotkeys(keys), Some(Inspect::Verdant));
    let mut zero = [false; 7];
    zero[0] = true;
    assert_eq!(s.handle_hotkeys(zero), Some(Inspect::All));
    assert_eq!(s.inspect, Inspect::All);
}

#[test]
fn shader_layer_modes() {
    assert!(!PlanetShader::StarCore.is_additive());
    assert!(PlanetShader::StarPlasma.is_additive());
    assert!(!PlanetShader::StarHotspots.is_additive());
    assert!(PlanetShader::EarthLand.is_additive());
    assert!(!PlanetShader::RingGoldBase.is_additive());
    assert!(PlanetShader::RingGoldGlow.is_additive());
    assert!(PlanetShader::StarCore.is_unlit());
    assert!(!PlanetShader::EarthOcean.is_unlit());
    assert!(PlanetShader::EarthClouds.is_unlit());
    assert!(!PlanetShader::GasGoldEddies.is_unlit());
    assert!(PlanetShader::RingBase.is_unlit());
}

fn face(w: usize, h: usize, base: u8) -> ImageFace {
    let mut rgba = Vec::new();
    for k in 0..(w * h) as u8 {
        rgba.extend_from_slice(&[base, k, 0x10 + k, 0xFF]);
    }
    ImageFace::from_rgba(w, h, &rgba)
}

#[test]
fn image_face_packs_rgb_and_drops_alpha() {
    let f = ImageFace::from_rgba(2, 1, &[1, 2, 3, 255, 4, 5, 6, 0]);
    assert_eq!((f.w, f.h), (2, 1));
    assert_eq!(f.data, vec![0x010203, 0x040506]);
}

#[test]
fn skybox_draw_fills_every_pixel_far() {
    let sky = Skybox::from_faces(face(2, 2, 1), face(2, 2, 2), face(2, 2, 3), face(2, 2, 4), face(3, 1, 5), face(1, 1, 6));
    assert_eq!(sky.texel(SkyTexel { face: 4, ix: 2, iy: 0 }), 0x050212);
    assert_eq!(sky.texel(SkyTexel { face: 1, ix: 1, iy: 1 }), 0x020313);
    let mut fb = Framebuffer::new(2, 1);
    fb.plot(0, 0, 0xFFFFFF, key(0.1));
    let lookup = vec![SkyTexel { face: 5, ix: 0, iy: 0 }, SkyTexel { face: 0, ix: 1, iy: 0 }];
    sky.draw(&mut fb, &lookup);
    assert_eq!(fb.buffer, vec![0x060010, 0x010111]);
    assert_eq!(fb.zbuffer, vec![FAR_DEPTH, FAR_DEPTH]);
}
