use duneview::math::{unit3, Vec3};
use duneview::render::{
    hit_point, ray_direction, render, shade_ground, shade_pixel, Camera, Vec2, VIEW_SIZE_X,
    VIEW_SIZE_Y,
};
use duneview::tables::{cos_at, sin_at};

fn scene(px: i32, py: i32, pz: i32, heading: i32, lx: i32, ly: i32, lz: i32) -> (Camera, Vec3) {
    (
        Camera { position: Vec3 { x: px, y: py, z: pz }, heading },
        Vec3 { x: lx, y: ly, z: lz },
    )
}

#[test]
fn viewport_is_320_by_200() {
    assert_eq!(VIEW_SIZE_X, 320);
    assert_eq!(VIEW_SIZE_Y, 200);
}

#[test]
fn render_fills_every_pixel_with_three_bytes() {
    let (camera, light) = scene(0, 50, 0, 0, 0, -100, 0);
    let buf = render(camera, light).unwrap();
    assert_eq!(buf.len(), 320 * 200 * 3);
}

#[test]
fn identical_inputs_render_identical_streams() {
    let (camera, light) = scene(12, 50, -7, 3, 10, -100, 20);
    let a = render(camera, light).unwrap();
    let b = render(camera, light).unwrap();
    assert_eq!(a, b);
}

#[test]
fn heading_wraps_modulo_256() {
    let (c1, l1) = scene(0, 50, 0, 0, 0, -100, 0);
    let (c2, l2) = scene(0, 50, 0, 256, 0, -100, 0);
    let (c3, l3) = scene(0, 50, 0, -256, 0, -100, 0);
    let frame = render(c1, l1).unwrap();
    assert_eq!(frame, render(c2, l2).unwrap());
    assert_eq!(frame, render(c3, l3).unwrap());
}

#[test]
fn zero_light_direction_is_refused() {
    let (camera, light) = scene(0, 50, 0, 0, 0, 0, 0);
    assert!(render(camera, light).is_none());
}

#[test]
fn nonzero_light_direction_is_accepted() {
    let (camera, light) = scene(0, 50, 0, 0, 0, 0, 1);
    assert!(render(camera, light).is_some());
}

#[test]
fn horizontal_ray_hits_camera_position() {
    // Row 100 gives the exactly-horizontal ray; the guarded division
    // yields distance 0, so the hit point is the camera position.
    let hcos = cos_at(0) as i32;
    let hsin = sin_at(0) as i32;
    let cam = Vec3 { x: 123, y: 456, z: -789 };
    for px in [0, 37, 160, 319] {
        let d = ray_direction(Vec2 { x: px, y: 100 }, hcos, hsin);
        assert_eq!(d.y, 0);
        let hit = hit_point(cam, d);
        assert_eq!(hit, cam);
    }
}

#[test]
fn horizon_row_stays_black() {
    let (camera, light) = scene(0, 50, 0, 0, 0, -100, 0);
    let buf = render(camera, light).unwrap();
    for px in 0..320usize {
        let at = (100 * 320 + px) * 3;
        assert_eq!(&buf[at..at + 3], &[0, 0, 0]);
    }
}

#[test]
fn sky_rows_use_sky_palette_and_ground_rows_ground_palette() {
    let (camera, light) = scene(0, 50, 0, 0, 0, -100, 0);
    let buf = render(camera, light).unwrap();
    for idx in 0..(320 * 200usize) {
        let row = idx / 320;
        let (r, g, b) = (buf[idx * 3], buf[idx * 3 + 1], buf[idx * 3 + 2]);
        if row < 100 {
            // Sunset red, wrapped gray, or the blue gradient.
            let sunset = (r, g, b) == (188, 0, 45);
            let gray = r == g && g == b;
            let blue = b >= 178 && r <= 128 && g <= 179;
            assert!(sunset || gray || blue, "sky pixel {} is ({},{},{})", idx, r, g, b);
        } else if row == 100 {
            assert_eq!((r, g, b), (0, 0, 0));
        } else {
            // Road tile, corrected dune, plain dune, or the brown default.
            let road = (r, g, b) == (100, 100, 110);
            let corrected = (r, g, b) == (60, 60, 120);
            let dune = r == 60 && b == 0;
            let brown = (r, g, b) == (77, 40, 0);
            assert!(road || corrected || dune || brown, "ground pixel {} is ({},{},{})", idx, r, g, b);
        }
    }
}

#[test]
fn known_pixels_have_exact_colors() {
    // Hand-computed through the fixed-point pipeline for
    // camera (0, 50, 0), heading 0, light (0, -100, 0).
    let (camera, light) = scene(0, 50, 0, 0, 0, -100, 0);
    let buf = render(camera, light).unwrap();
    let px = |x: usize, y: usize| {
        let at = (y * 320 + x) * 3;
        (buf[at], buf[at + 1], buf[at + 2])
    };
    // Wrapped-gray banding: sky term -29 stored as byte 227.
    assert_eq!(px(0, 0), (227, 227, 227));
    // Blue-to-horizon gradient, exact triple.
    assert_eq!(px(142, 0), (38, 52, 202));
    // A road tile just below the horizon.
    assert_eq!(px(6, 101), (100, 100, 110));
    // Dune pixels with exact green channels.
    assert_eq!(px(319, 199), (60, 59, 0));
    assert_eq!(px(160, 150), (60, 55, 0));
}

#[test]
fn road_tile_renders_road_color() {
    assert_eq!(shade_ground(0, 0), (100, 100, 110));
    assert_eq!(shade_ground(8191, 8191), (100, 100, 110));
    // Column index 0 mod 7 but row index 8 mod 9: a dune tile.
    assert_ne!(shade_ground(0, -75924), (100, 100, 110));
}

#[test]
fn road_tile_through_full_pipeline() {
    // Pixel (160, 150) at heading 0 has direction (0, -115, 228) and
    // distance -333, so the hit point is (cam.x, _, cam.z - 75924).
    let mut light = Vec3 { x: 0, y: -100, z: 0 };
    unit3(&mut light);
    let cam = Vec3 { x: 0, y: 50, z: 75924 };
    let rgb = shade_pixel(cam, cos_at(0) as i32, sin_at(0) as i32, light, Vec2 { x: 160, y: 150 });
    assert_eq!(rgb, (100, 100, 110));

    let (camera, raw_light) = scene(0, 50, 75924, 0, 0, -100, 0);
    let buf = render(camera, raw_light).unwrap();
    let at = (150 * 320 + 160) * 3;
    assert_eq!(&buf[at..at + 3], &[100, 100, 110]);
}

#[test]
fn wrapped_dune_green_is_corrected() {
    // hit.x = 3840 makes sin[(hit.x / 20) & 255] == sin[192] == -127, so
    // the stored dune green byte is (-127 / 2 + 55) as u8 == 248 > 200:
    // the overflow-correction branch must force (60, 60, 120).
    let mut light = Vec3 { x: 0, y: -100, z: 0 };
    unit3(&mut light);
    let cam = Vec3 { x: 3840, y: 50, z: 0 };
    let rgb = shade_pixel(cam, cos_at(0) as i32, sin_at(0) as i32, light, Vec2 { x: 160, y: 150 });
    assert_eq!(rgb, (60, 60, 120));

    let (camera, raw_light) = scene(3840, 50, 0, 0, 0, -100, 0);
    let buf = render(camera, raw_light).unwrap();
    let at = (150 * 320 + 160) * 3;
    assert_eq!(&buf[at..at + 3], &[60, 60, 120]);
}

#[test]
fn plain_dune_green_stays() {
    // hit.x = 0 gives sin[0] == 0: green 0 / 2 + 55 == 55, no correction,
    // on a tile that is not a road tile (row index -10 mod 9 != 0).
    let mut light = Vec3 { x: 0, y: -100, z: 0 };
    unit3(&mut light);
    let cam = Vec3 { x: 0, y: 50, z: 0 };
    let rgb = shade_pixel(cam, cos_at(0) as i32, sin_at(0) as i32, light, Vec2 { x: 160, y: 150 });
    assert_eq!(rgb, (60, 55, 0));
}

#[test]
fn sunset_disk_appears_toward_light() {
    // A light along the ray of pixel (160, 0): that ray's direction is
    // (0, 182, 180), its dot with the equally-normalized light is
    // 182*182 + 180*180 = 65524 >= 64000, and its sky term is
    // non-negative, so the pixel keeps the default sunset red.
    let (camera, light) = scene(0, 50, 0, 0, 0, 128, 127);
    let buf = render(camera, light).unwrap();
    assert_eq!(&buf[160 * 3..160 * 3 + 3], &[188, 0, 45]);
    let mut sunset = 0usize;
    for idx in 0..(320 * 100usize) {
        if (buf[idx * 3], buf[idx * 3 + 1], buf[idx * 3 + 2]) == (188, 0, 45) {
            sunset += 1;
        }
    }
    assert!(sunset > 0);
}
