use softrender::clip::{clip_pass, clip_plane, fan_triangles, ClipPlane, ClipVertex, Clipper};
use softrender::color::pack_rgb;
use softrender::depth::{depth_key, DEPTH_KEY_FAR};
use softrender::line::rasterize_line;
use softrender::raster::{rasterize_triangle, signed_area, tri_area_signed_squared, ScreenPoint};
use softrender::renderer::{DrawMode, Renderer};

/// A clip-space position and an RGB varying.
type Vert = ([f32; 4], [f32; 3]);

fn inside(p: &[f32; 4], plane: ClipPlane) -> bool {
    if plane.sign < 0 {
        -p[3] <= p[plane.axis]
    } else {
        p[plane.axis] <= p[3]
    }
}

fn lerp4(a: [f32; 4], b: [f32; 4], t: f32) -> [f32; 4] {
    [
        a[0] + (b[0] - a[0]) * t,
        a[1] + (b[1] - a[1]) * t,
        a[2] + (b[2] - a[2]) * t,
        a[3] + (b[3] - a[3]) * t,
    ]
}

fn lerp3(a: [f32; 3], b: [f32; 3], t: f32) -> [f32; 3] {
    [a[0] + (b[0] - a[0]) * t, a[1] + (b[1] - a[1]) * t, a[2] + (b[2] - a[2]) * t]
}

fn intersect(from: &Vert, to: &Vert, plane: ClipPlane) -> Vert {
    let s = plane.sign as f32;
    let a = plane.axis;
    let d_to = s * to.0[3] - to.0[a];
    let d_from = s * from.0[3] - from.0[a];
    let t = d_to / (d_to - d_from);
    (lerp4(to.0, from.0, t), lerp3(to.1, from.1, t))
}

fn clip(tri: [Vert; 3]) -> Vec<[Vert; 3]> {
    let mut poly: Vec<Vert> = tri.to_vec();
    let mut clipper = Clipper::new();
    while let Some(plane) = clipper.next_plane() {
        let flags: Vec<bool> = poly.iter().map(|v| inside(&v.0, plane)).collect();
        let plan = clipper.apply(&flags);
        poly = plan
            .iter()
            .map(|cv| match *cv {
                ClipVertex::Keep(i) => poly[i],
                ClipVertex::Cross(p, c) => intersect(&poly[p], &poly[c], plane),
            })
            .collect();
    }
    clipper
        .triangles()
        .iter()
        .map(|t| [poly[t[0]], poly[t[1]], poly[t[2]]])
        .collect()
}

fn to_screen(p: [f32; 4], w: u16, h: u16) -> (ScreenPoint, f32) {
    let nx = p[0] / p[3];
    let ny = p[1] / p[3];
    let nz = p[2] / p[3];
    let fx = (nx + 1.0) * (w as f32 - 1.0) / 2.0;
    let fy = (ny + 1.0) * (h as f32 - 1.0) / 2.0;
    (
        ScreenPoint {
            x: (fx * 256.0).round() as i64,
            y: (fy * 256.0).round() as i64,
        },
        nz,
    )
}

fn channel(v: f32) -> u32 {
    v.round().clamp(0.0, 255.0) as u32
}

/// Draws one triangle filled; the fragment color is the interpolated varying.
fn draw_filled(r: &mut Renderer, tri: [Vert; 3]) {
    let (w, h) = (r.get_width(), r.get_height());
    for t in clip(tri) {
        let (p0, z0) = to_screen(t[0].0, w, h);
        let (p1, z1) = to_screen(t[1].0, w, h);
        let (p2, z2) = to_screen(t[2].0, w, h);
        let area = tri_area_signed_squared(p0, p1, p2);
        for f in rasterize_triangle(p0, p1, p2, w, h) {
            let l = [
                f.efb as f32 / area as f32,
                f.efc as f32 / area as f32,
                f.efa as f32 / area as f32,
            ];
            let z = l[0] * z0 + l[1] * z1 + l[2] * z2;
            let c = [
                l[0] * t[0].1[0] + l[1] * t[1].1[0] + l[2] * t[2].1[0],
                l[0] * t[0].1[1] + l[1] * t[1].1[1] + l[2] * t[2].1[1],
                l[0] * t[0].1[2] + l[1] * t[1].1[2] + l[2] * t[2].1[2],
            ];
            let color = pack_rgb(channel(c[0]), channel(c[1]), channel(c[2]));
            r.write_fragment(f.x, f.y, depth_key(z.to_bits()), color);
        }
    }
}

fn pixel(px: f32, py: f32) -> (u16, u16) {
    (px as u16, py as u16)
}

/// Draws the three edges of one triangle with a flat color.
fn draw_wire(r: &mut Renderer, tri: [Vert; 3], color: u32) {
    let (w, h) = (r.get_width(), r.get_height());
    for t in clip(tri) {
        let pts: Vec<(u16, u16)> = t
            .iter()
            .map(|v| {
                let (p, _) = to_screen(v.0, w, h);
                pixel(p.x as f32 / 256.0, p.y as f32 / 256.0)
            })
            .collect();
        for (a, b) in [(0, 1), (1, 2), (2, 0)] {
            for (x, y) in rasterize_line(pts[a].0, pts[a].1, pts[b].0, pts[b].1) {
                r.plot_color(x, y, color);
            }
        }
    }
}

fn flat(p: [[f32; 3]; 3], z: f32, rgb: [f32; 3]) -> [Vert; 3] {
    [
        ([p[0][0], p[0][1], z, 1.0], rgb),
        ([p[1][0], p[1][1], z, 1.0], rgb),
        ([p[2][0], p[2][1], z, 1.0], rgb),
    ]
}

#[test]
fn fullscreen_triangle_flat_red() {
    let mut r = Renderer::new(8, 8);
    r.clear_framebuffer(0);
    let tri = flat([[-1.0, -1.0, 0.0], [3.0, -1.0, 0.0], [-1.0, 3.0, 0.0]], 0.0, [255.0, 0.0, 0.0]);
    draw_filled(&mut r, tri);
    assert!(r.color_buffer().get_raw().iter().all(|&c| c == 0x00ff_0000));
}

fn cover_pixel_four(z: f32, rgb: [f32; 3]) -> [Vert; 3] {
    flat([[-0.5, -0.5, 0.0], [1.0, -0.5, 0.0], [-0.5, 1.0, 0.0]], z, rgb)
}

#[test]
fn depth_test_closer_wins_in_both_orders() {
    let green = cover_pixel_four(0.5, [0.0, 255.0, 0.0]);
    let red = cover_pixel_four(0.2, [255.0, 0.0, 0.0]);

    let mut a = Renderer::new(8, 8);
    a.clear_framebuffer(0);
    draw_filled(&mut a, green);
    draw_filled(&mut a, red);
    assert_eq!(a.color_buffer().get_pixel(4, 4), 0x00ff_0000);

    let mut b = Renderer::new(8, 8);
    b.clear_framebuffer(0);
    draw_filled(&mut b, red);
    draw_filled(&mut b, green);
    assert_eq!(b.color_buffer().get_pixel(4, 4), 0x00ff_0000);
}

#[test]
fn distinct_depths_give_same_image_in_either_order() {
    let t1 = flat([[-1.0, -1.0, 0.0], [0.8, -0.6, 0.0], [-0.2, 0.9, 0.0]], 0.3, [10.0, 200.0, 30.0]);
    let t2 = flat([[-0.6, -0.9, 0.0], [1.0, 0.2, 0.0], [-0.9, 0.7, 0.0]], 0.6, [250.0, 5.0, 90.0]);
    let mut a = Renderer::new(16, 16);
    a.clear_framebuffer(0);
    draw_filled(&mut a, t1);
    draw_filled(&mut a, t2);
    let mut b = Renderer::new(16, 16);
    b.clear_framebuffer(0);
    draw_filled(&mut b, t2);
    draw_filled(&mut b, t1);
    assert_eq!(a.color_buffer().get_raw(), b.color_buffer().get_raw());
    assert_eq!(a.depth_buffer().get_raw(), b.depth_buffer().get_raw());
}

#[test]
fn equal_depths_first_drawn_wins() {
    let t1 = cover_pixel_four(0.4, [255.0, 0.0, 0.0]);
    let t2 = cover_pixel_four(0.4, [0.0, 0.0, 255.0]);
    let mut a = Renderer::new(8, 8);
    a.clear_framebuffer(0);
    draw_filled(&mut a, t1);
    draw_filled(&mut a, t2);
    let mut b = Renderer::new(8, 8);
    b.clear_framebuffer(0);
    draw_filled(&mut b, t2);
    draw_filled(&mut b, t1);
    assert_eq!(a.color_buffer().get_pixel(4, 4), 0x00ff_0000);
    assert_eq!(b.color_buffer().get_pixel(4, 4), 0x0000_00ff);
}

#[test]
fn clip_against_near_plane() {
    let tri: [Vert; 3] = [
        ([0.0, 0.0, -2.0, 1.0], [255.0, 255.0, 255.0]),
        ([2.0, 0.0, 1.0, 1.0], [255.0, 255.0, 255.0]),
        ([-2.0, 0.0, 1.0, 1.0], [255.0, 255.0, 255.0]),
    ];
    let out = clip(tri);
    assert!(!out.is_empty());
    for t in &out {
        for v in t {
            assert!(v.0[2] >= -v.0[3]);
        }
    }
    // The same triangle tilted into the screen so that it has area there.
    let tilted: [Vert; 3] = [
        ([0.0, -0.8, -2.0, 1.0], [255.0, 255.0, 255.0]),
        ([2.0, 0.9, 1.0, 1.0], [255.0, 255.0, 255.0]),
        ([-2.0, 0.9, 1.0, 1.0], [255.0, 255.0, 255.0]),
    ];
    let mut r = Renderer::new(16, 16);
    r.clear_framebuffer(0);
    draw_filled(&mut r, tilted);
    let lit = r.color_buffer().get_raw().iter().filter(|&&c| c != 0).count();
    assert!(lit > 0);
}

#[test]
fn clipped_vertices_lie_in_the_frustum() {
    let tris: [[Vert; 3]; 3] = [
        [
            ([-3.0, -0.5, 0.2, 1.0], [0.0; 3]),
            ([2.5, -2.0, 0.4, 1.0], [0.0; 3]),
            ([0.3, 4.0, -0.5, 1.0], [0.0; 3]),
        ],
        [
            ([0.0, 0.0, -3.0, 1.0], [0.0; 3]),
            ([1.5, 0.5, 2.0, 1.0], [0.0; 3]),
            ([-0.5, 1.5, 0.0, 2.0], [0.0; 3]),
        ],
        [
            ([-5.0, -5.0, 0.0, 1.0], [0.0; 3]),
            ([5.0, -5.0, 0.0, 1.0], [0.0; 3]),
            ([0.0, 5.0, 0.0, 1.0], [0.0; 3]),
        ],
    ];
    for tri in tris {
        let out = clip(tri);
        assert!(!out.is_empty());
        assert!(out.len() <= 7);
        for t in &out {
            for v in t {
                let w = v.0[3];
                let eps = 1e-4;
                for a in 0..3 {
                    assert!(-w - eps <= v.0[a] && v.0[a] <= w + eps);
                }
            }
        }
    }
}

#[test]
fn clip_keeps_inside_triangle_unchanged() {
    let tri: [Vert; 3] = [
        ([-0.5, -0.5, 0.1, 1.0], [1.0, 2.0, 3.0]),
        ([0.5, -0.4, 0.2, 1.0], [4.0, 5.0, 6.0]),
        ([0.0, 0.6, 0.3, 1.0], [7.0, 8.0, 9.0]),
    ];
    let out = clip(tri);
    assert_eq!(out.len(), 1);
    assert_eq!(out[0], tri);
}

#[test]
fn clip_drops_triangle_outside_one_plane() {
    let tri: [Vert; 3] = [
        ([2.0, 0.0, 0.0, 1.0], [0.0; 3]),
        ([3.0, 0.5, 0.0, 1.0], [0.0; 3]),
        ([2.5, -0.5, 0.0, 1.0], [0.0; 3]),
    ];
    assert!(clip(tri).is_empty());
}

#[test]
fn clip_pass_cases() {
    assert_eq!(
        clip_pass(&vec![true, true, true]),
        vec![ClipVertex::Keep(0), ClipVertex::Keep(1), ClipVertex::Keep(2)]
    );
    assert!(clip_pass(&vec![false, false, false]).is_empty());
    assert_eq!(
        clip_pass(&vec![false, true, true]),
        vec![
            ClipVertex::Cross(2, 0),
            ClipVertex::Cross(0, 1),
            ClipVertex::Keep(1),
            ClipVertex::Keep(2),
        ]
    );
    assert_eq!(
        clip_pass(&vec![true, false, false]),
        vec![ClipVertex::Cross(2, 0), ClipVertex::Keep(0), ClipVertex::Cross(0, 1)]
    );
    assert!(clip_pass(&vec![]).is_empty());
}

#[test]
fn clip_plane_order() {
    let planes: Vec<(i8, usize)> = (0..6).map(|i| {
        let p = clip_plane(i);
        (p.sign, p.axis)
    }).collect();
    assert_eq!(planes, vec![(-1, 0), (1, 0), (-1, 1), (1, 1), (-1, 2), (1, 2)]);
}

#[test]
fn clipper_runs_six_passes() {
    let mut c = Clipper::new();
    let mut planes = 0;
    while let Some(_) = c.next_plane() {
        let plan = c.apply(&vec![true, true, true]);
        assert_eq!(plan, vec![ClipVertex::Keep(0), ClipVertex::Keep(1), ClipVertex::Keep(2)]);
        planes += 1;
    }
    assert_eq!(planes, 6);
    assert_eq!(c.triangles(), vec![[0, 1, 2]]);
}

#[test]
fn clipper_emptied_gives_no_triangles() {
    let mut c = Clipper::new();
    assert!(c.next_plane().is_some());
    assert!(c.apply(&vec![false, false, false]).is_empty());
    while let Some(_) = c.next_plane() {
        assert!(c.apply(&vec![]).is_empty());
    }
    assert!(c.triangles().is_empty());
}

#[test]
fn fan_of_polygons() {
    assert!(fan_triangles(0).is_empty());
    assert!(fan_triangles(2).is_empty());
    assert_eq!(fan_triangles(3), vec![[0, 1, 2]]);
    assert_eq!(fan_triangles(6), vec![[0, 1, 2], [0, 2, 3], [0, 3, 4], [0, 4, 5]]);
}

#[test]
fn degenerate_triangle_writes_nothing() {
    let mut r = Renderer::new(8, 8);
    r.clear_framebuffer(0x0011_2233);
    let before_c = r.color_buffer().get_raw().to_vec();
    let before_d = r.depth_buffer().get_raw().to_vec();
    let tri = flat([[-1.0, -1.0, 0.0], [0.0, 0.0, 0.0], [1.0, 1.0, 0.0]], 0.0, [255.0; 3]);
    draw_filled(&mut r, tri);
    assert_eq!(r.color_buffer().get_raw(), &before_c[..]);
    assert_eq!(r.depth_buffer().get_raw(), &before_d[..]);
    let p = ScreenPoint { x: 256, y: 256 };
    let q = ScreenPoint { x: 512, y: 512 };
    let s = ScreenPoint { x: 1024, y: 1024 };
    assert_eq!(tri_area_signed_squared(p, q, s), 0);
    assert!(rasterize_triangle(p, q, s, 8, 8).is_empty());
}

#[test]
fn clockwise_triangle_covers_nothing() {
    let p0 = ScreenPoint { x: 0, y: 0 };
    let p1 = ScreenPoint { x: 0, y: 7 * 256 };
    let p2 = ScreenPoint { x: 7 * 256, y: 0 };
    assert!(tri_area_signed_squared(p0, p1, p2) < 0);
    assert!(rasterize_triangle(p0, p1, p2, 8, 8).is_empty());
}

#[test]
fn wireframe_triangle_draws_edges_only() {
    let mut r = Renderer::new(16, 16);
    r.clear_framebuffer(0);
    r.set_draw_mode(DrawMode::WIREFRAME);
    assert_eq!(r.get_draw_mode(), DrawMode::WIREFRAME);
    let tri = flat([[-0.8, -0.8, 0.0], [0.8, -0.8, 0.0], [-0.8, 0.8, 0.0]], 0.0, [255.0; 3]);
    draw_wire(&mut r, tri, 0x00ff_ffff);
    let fb = r.color_buffer();
    // Screen vertices are (1, 1), (13, 1) and (1, 13).
    let on_edge = |x: i32, y: i32| y == 1 || x == 1 || x + y == 14;
    let mut lit = 0;
    for y in 0..16u16 {
        for x in 0..16u16 {
            let c = fb.get_pixel(x, y);
            if c != 0 {
                lit += 1;
                assert!(on_edge(x as i32, y as i32), "({}, {})", x, y);
            }
        }
    }
    assert!(lit >= 30);
    assert_eq!(fb.get_pixel(4, 4), 0);
    assert_eq!(fb.get_pixel(5, 3), 0);
}

#[test]
fn varying_interpolated_at_centroid() {
    let mut r = Renderer::new(31, 31);
    r.clear_framebuffer(0);
    // Screen vertices (0, 0), (30, 0), (0, 30): the centroid is pixel (10, 10).
    let tri: [Vert; 3] = [
        ([-1.0, -1.0, 0.0, 1.0], [255.0, 0.0, 0.0]),
        ([1.0, -1.0, 0.0, 1.0], [0.0, 255.0, 0.0]),
        ([-1.0, 1.0, 0.0, 1.0], [0.0, 0.0, 255.0]),
    ];
    draw_filled(&mut r, tri);
    let c = r.color_buffer().get_pixel(10, 10);
    let (red, green, blue) = ((c >> 16) & 0xff, (c >> 8) & 0xff, c & 0xff);
    for ch in [red, green, blue] {
        assert!((84..=86).contains(&ch), "{:x}", c);
    }
}

#[test]
fn weights_at_a_vertex_are_the_vertex_alone() {
    let p0 = ScreenPoint { x: 2 * 256, y: 2 * 256 };
    let p1 = ScreenPoint { x: 9 * 256, y: 3 * 256 };
    let p2 = ScreenPoint { x: 4 * 256, y: 8 * 256 };
    let area = tri_area_signed_squared(p0, p1, p2);
    assert!(area > 0);
    let frags = rasterize_triangle(p0, p1, p2, 12, 12);
    let at = |x: u16, y: u16| frags.iter().find(|f| f.x == x && f.y == y).copied().unwrap();
    let f0 = at(2, 2);
    assert_eq!((f0.efb, f0.efc, f0.efa), (area, 0, 0));
    let f1 = at(9, 3);
    assert_eq!((f1.efb, f1.efc, f1.efa), (0, area, 0));
    let f2 = at(4, 8);
    assert_eq!((f2.efb, f2.efc, f2.efa), (0, 0, area));
}

#[test]
fn fragments_have_non_negative_edges_in_scan_order() {
    let p0 = ScreenPoint { x: 100, y: 50 };
    let p1 = ScreenPoint { x: 3000, y: 700 };
    let p2 = ScreenPoint { x: 900, y: 2900 };
    let frags = rasterize_triangle(p0, p1, p2, 16, 16);
    assert!(!frags.is_empty());
    for f in &frags {
        let (sx, sy) = (f.x as i64 * 256, f.y as i64 * 256);
        assert_eq!(f.efa, signed_area(p0, p1, sx, sy));
        assert_eq!(f.efb, signed_area(p1, p2, sx, sy));
        assert_eq!(f.efc, signed_area(p2, p0, sx, sy));
        assert!(f.efa >= 0 && f.efb >= 0 && f.efc >= 0);
    }
    for w in frags.windows(2) {
        assert!((w[0].y, w[0].x) < (w[1].y, w[1].x));
    }
    // Every covered pixel is listed.
    let mut count = 0;
    for y in 0..16i64 {
        for x in 0..16i64 {
            let (sx, sy) = (x * 256, y * 256);
            if signed_area(p0, p1, sx, sy) >= 0
                && signed_area(p1, p2, sx, sy) >= 0
                && signed_area(p2, p0, sx, sy) >= 0
            {
                count += 1;
            }
        }
    }
    assert_eq!(count, frags.len());
}

#[test]
fn triangle_clamped_to_buffer() {
    let p0 = ScreenPoint { x: -2000, y: -2000 };
    let p1 = ScreenPoint { x: 9000, y: -2000 };
    let p2 = ScreenPoint { x: -2000, y: 9000 };
    let frags = rasterize_triangle(p0, p1, p2, 4, 4);
    assert_eq!(frags.len(), 16);
    assert!(frags.iter().all(|f| f.x < 4 && f.y < 4));
}

#[test]
fn fragment_rejected_when_not_nearer() {
    let mut r = Renderer::new(4, 4);
    r.clear_framebuffer(0);
    assert!(r.write_fragment(1, 1, depth_key(0.5f32.to_bits()), 7));
    assert!(!r.write_fragment(1, 1, depth_key(0.5f32.to_bits()), 8));
    assert!(!r.write_fragment(1, 1, depth_key(0.9f32.to_bits()), 9));
    assert_eq!(r.color_buffer().get_pixel(1, 1), 7);
    assert!(!r.write_fragment(2, 2, DEPTH_KEY_FAR, 3));
    assert_eq!(r.color_buffer().get_pixel(2, 2), 0);
}
