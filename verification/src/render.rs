//! The per-pixel raymarching and shading pipeline.
//!
//! For each pixel of the fixed 320x200 viewport, a camera ray direction
//! is projected from the pixel position and the camera heading, a hit
//! point on the ground plane is derived from it, and a color is chosen
//! from the ray's vertical sign and the hit coordinates: sky banding and
//! a sun highlight above the horizon, checkerboard road tiles and a sine dune
//! pattern below, and black exactly on the horizon. Colors are narrowed
//! to bytes by two's-complement truncation, which is deliberate: the
//! wraparound is part of the visual banding.

use vstd::prelude::*;
use crate::math::Vec3;
use crate::math::abs_val;
use crate::math::tdiv;
use crate::math::isqrt_spec;
use crate::math::norm_sq;
use crate::math::norm_val;
use crate::math::dot3_spec;
use crate::math::dot3;
use crate::math::norm3;
use crate::math::unit3;
use crate::math::divide;
use crate::math::tdiv32;
use crate::math::fdiv32;
use crate::math::emod32;
use crate::math::lemma_tdiv_le;
use crate::math::lemma_sq_nonneg;
use vstd::arithmetic::div_mod::lemma_fundamental_div_mod;
use vstd::arithmetic::div_mod::lemma_mod_division_less_than_divisor;
use crate::tables::sin_at;
use crate::tables::cos_at;
use crate::tables::sin_at_spec;
use crate::tables::cos_at_spec;

verus! {

/// Viewport width in pixels.
pub const VIEW_SIZE_X: i32 = 320;

/// Viewport height in pixels.
pub const VIEW_SIZE_Y: i32 = 200;

/// An integer pair: a pixel-space coordinate or offset.
#[derive(Clone, Copy, PartialEq, Eq, Structural, Debug)]
pub struct Vec2 {
    pub x: i32,
    pub y: i32,
}

/// Camera: a world-space position and a heading in 256ths of a turn
/// (any integer; lookups reduce it modulo 256).
#[derive(Clone, Copy, PartialEq, Eq, Structural, Debug)]
pub struct Camera {
    pub position: Vec3,
    pub heading: i32,
}

/// A color channel value narrowed to a byte by two's-complement
/// truncation: negative or oversized values wrap, never clamp.
pub open spec fn byte_of(v: int) -> int {
    v % 256
}

/// Horizontal component of the unnormalized camera ray for a pixel
/// column `px`, given the heading cosine `c` and sine `s`.
pub open spec fn pre_dir_x(px: int, c: int, s: int) -> int {
    tdiv((320 - 2 * px) * c, 200) - s
}

/// Vertical component of the unnormalized camera ray for a pixel row
/// `py`: a fixed vertical scale of 128, independent of the heading.
pub open spec fn pre_dir_y(py: int) -> int {
    tdiv((200 - 2 * py) * 128, 200)
}

/// Depth component of the unnormalized camera ray for a pixel column
/// `px`, given the heading cosine `c` and sine `s`.
pub open spec fn pre_dir_z(px: int, c: int, s: int) -> int {
    tdiv((320 - 2 * px) * s, 200) + c
}

/// Integer magnitude of the unnormalized camera ray.
pub open spec fn pre_mag(px: int, py: int, c: int, s: int) -> int {
    let x = pre_dir_x(px, c, s);
    let y = pre_dir_y(py);
    let z = pre_dir_z(px, c, s);
    isqrt_spec((x * x + y * y + z * z) as nat) as int
}

/// Horizontal component of the normalized (Q8.8) camera ray. A ray of
/// magnitude zero is left as it is: the degenerate-ray guard.
pub open spec fn dir_x(px: int, py: int, c: int, s: int) -> int {
    let n = pre_mag(px, py, c, s);
    if n == 0 {
        pre_dir_x(px, c, s)
    } else {
        tdiv(256 * pre_dir_x(px, c, s), n)
    }
}

/// Vertical component of the normalized (Q8.8) camera ray.
pub open spec fn dir_y(px: int, py: int, c: int, s: int) -> int {
    let n = pre_mag(px, py, c, s);
    if n == 0 {
        pre_dir_y(py)
    } else {
        tdiv(256 * pre_dir_y(py), n)
    }
}

/// Depth component of the normalized (Q8.8) camera ray.
pub open spec fn dir_z(px: int, py: int, c: int, s: int) -> int {
    let n = pre_mag(px, py, c, s);
    if n == 0 {
        pre_dir_z(px, c, s)
    } else {
        tdiv(256 * pre_dir_z(px, c, s), n)
    }
}

/// Projection distance for a normalized ray: `divide(150, dir.y)` in Q8.8,
/// and 0 for an exactly horizontal ray — the explicit degenerate-ray
/// guard against division by zero, which leaves the hit point at the
/// camera position.
pub open spec fn dist_of(dy: int) -> int {
    if dy != 0 {
        tdiv(38400, dy)
    } else {
        0
    }
}

/// Sky brightness term, a function of the hit point alone.
pub open spec fn sky_level(hx: int, hz: int) -> int {
    cos_at_spec((cos_at_spec(hz / 2048) + hx / 256) / 2) + tdiv(cos_at_spec(tdiv(hz, 500)), 4)
        + 30
}

/// Sky color for a rising ray: wrapped-gray banding where the brightness
/// is negative, a blue-to-horizon gradient away from the light, and the
/// warm sunset red (188, 0, 45) in the bright disk around the light.
pub open spec fn sky_rgb(dy: int, sky: int, light_dot: int) -> (int, int, int) {
    if sky < 0 {
        (byte_of(sky), byte_of(sky), byte_of(sky))
    } else if light_dot < 64000 {
        (
            byte_of(128 - tdiv(128 * dy, 255)),
            byte_of(179 - tdiv(179 * dy, 255)),
            byte_of(255 - tdiv(76 * dy, 255)),
        )
    } else {
        (188, 0, 45)
    }
}

/// Ground color for a falling ray: the world is divided into
/// 8192-unit tiles; a tile whose column index is 0 modulo 7 and whose
/// row index is 0 modulo 9 is a road tile (100, 100, 110), every other
/// tile shows the dune pattern, a green channel modulated by a sine of
/// the hit abscissa. A dune green byte that wrapped past 200 is
/// corrected to (60, 60, 120); the test reads the stored byte, not the
/// pre-truncation value.
pub open spec fn ground_rgb(hx: int, hz: int) -> (int, int, int) {
    if (hx / 8192) % 7 == 0 && (hz / 8192) % 9 == 0 {
        (100, 100, 110)
    } else {
        let g = byte_of(tdiv(sin_at_spec(tdiv(hx, 20)), 2) + 55);
        if g > 200 {
            (60, 60, 120)
        } else {
            (60, g, 0)
        }
    }
}

/// The color of one pixel, as a function of the camera position, the
/// heading cosine and sine, the normalized light direction and the pixel
/// position. A ray with `dir.y == 0` paints nothing: the pixel keeps the
/// frame buffer's zero-initialized black.
pub open spec fn pixel_rgb(
    cam: Vec3,
    c: int,
    s: int,
    lx: int,
    ly: int,
    lz: int,
    px: int,
    py: int,
) -> (int, int, int) {
    let dx = dir_x(px, py, c, s);
    let dy = dir_y(px, py, c, s);
    let dz = dir_z(px, py, c, s);
    let dist = dist_of(dy);
    let hx = cam.x + dist * dx;
    let hz = cam.z + dist * dz;
    if dy > 0 {
        sky_rgb(dy, sky_level(hx, hz), dx * lx + dy * ly + dz * lz)
    } else if dy < 0 {
        ground_rgb(hx, hz)
    } else {
        (0, 0, 0)
    }
}

/// Component `x` of `v` normalized to Q8.8 (the value `unit3` writes).
pub open spec fn unit_x(v: Vec3) -> int {
    tdiv(256 * v.x, norm_val(v))
}

/// Component `y` of `v` normalized to Q8.8.
pub open spec fn unit_y(v: Vec3) -> int {
    tdiv(256 * v.y, norm_val(v))
}

/// Component `z` of `v` normalized to Q8.8.
pub open spec fn unit_z(v: Vec3) -> int {
    tdiv(256 * v.z, norm_val(v))
}

/// Bytes `3*k .. 3*k+3` of `bytes` hold exactly the color of pixel `k`
/// (row-major: column `k % 320`, row `k / 320`).
pub open spec fn pixel_ok(
    bytes: Seq<u8>,
    k: int,
    cam: Vec3,
    c: int,
    s: int,
    lx: int,
    ly: int,
    lz: int,
) -> bool {
    let rgb = pixel_rgb(cam, c, s, lx, ly, lz, k % 320, k / 320);
    &&& bytes[3 * k] as int == rgb.0
    &&& bytes[3 * k + 1] as int == rgb.1
    &&& bytes[3 * k + 2] as int == rgb.2
}

/// Maps a pixel position and the camera heading's cosine and sine to the
/// normalized 3D ray direction through that pixel.
pub fn ray_direction(p: Vec2, hcos: i32, hsin: i32) -> (d: Vec3)
    requires
        0 <= p.x < 320,
        0 <= p.y < 200,
        -127 <= hcos <= 127,
        -127 <= hsin <= 127,
    ensures
        d.x == dir_x(p.x as int, p.y as int, hcos as int, hsin as int),
        d.y == dir_y(p.x as int, p.y as int, hcos as int, hsin as int),
        d.z == dir_z(p.x as int, p.y as int, hcos as int, hsin as int),
        abs_val(d.x as int) <= 256,
        abs_val(d.y as int) <= 256,
        abs_val(d.z as int) <= 256,
{
    let ox: i32 = 320 - 2 * p.x;
    let oy: i32 = 200 - 2 * p.y;
    proof {
        assert(abs_val(ox * hcos) <= 204 * 200 && abs_val(ox * hsin) <= 204 * 200 && abs_val(
            oy * 128,
        ) <= 128 * 200) by (nonlinear_arith)
            requires
                -318 <= ox <= 320,
                -198 <= oy <= 200,
                -127 <= hcos <= 127,
                -127 <= hsin <= 127,
        ;
        lemma_tdiv_le((ox * hcos) as int, 200, 204);
        lemma_tdiv_le((ox * hsin) as int, 200, 204);
        lemma_tdiv_le((oy * 128) as int, 200, 128);
    }
    let mut d = Vec3 {
        x: tdiv32(ox * hcos, 200) - hsin,
        y: tdiv32(oy * 128, 200),
        z: tdiv32(ox * hsin, 200) + hcos,
    };
    proof {
        assert(d.x * d.x + d.y * d.y + d.z * d.z <= 0x7fffffff && d.x * d.x >= 0 && d.y * d.y
            >= 0 && d.z * d.z >= 0) by (nonlinear_arith)
            requires
                abs_val(d.x as int) <= 331,
                abs_val(d.y as int) <= 128,
                abs_val(d.z as int) <= 331,
        ;
    }
    let n = norm3(&d);
    if n != 0 {
        proof {
            assert(norm_sq(d) >= 1) by (nonlinear_arith)
                requires
                    n * n <= norm_sq(d),
                    n >= 1,
            ;
        }
        unit3(&mut d);
    } else {
        proof {
            // A zero magnitude forces a zero squared magnitude, hence a
            // zero ray; the guarded value equals the unnormalized one.
            assert(d.x == 0 && d.y == 0 && d.z == 0) by (nonlinear_arith)
                requires
                    n == 0,
                    d.x * d.x + d.y * d.y + d.z * d.z < (n + 1) * (n + 1),
            ;
        }
    }
    d
}

/// Spec-level hit point abscissa: `cam.x + dist * dir.x`, with the plain
/// (not fixed-point) product the pipeline prescribes.
pub open spec fn hit_coord(c0: int, dy: int, dc: int) -> int {
    c0 + dist_of(dy) * dc
}

/// The world-space point a ray "hits": the camera position plus the
/// projection distance times the direction, component-wise with plain
/// integer products. For `dir.y == 0` the distance is 0 and the hit
/// point is exactly the camera position.
pub fn hit_point(cam: Vec3, dir: Vec3) -> (h: Vec3)
    requires
        abs_val(dir.x as int) <= 256,
        abs_val(dir.y as int) <= 256,
        abs_val(dir.z as int) <= 256,
        i32::MIN + 9830400 <= cam.x <= i32::MAX - 9830400,
        i32::MIN + 9830400 <= cam.y <= i32::MAX - 9830400,
        i32::MIN + 9830400 <= cam.z <= i32::MAX - 9830400,
    ensures
        h.x == hit_coord(cam.x as int, dir.y as int, dir.x as int),
        h.y == hit_coord(cam.y as int, dir.y as int, dir.y as int),
        h.z == hit_coord(cam.z as int, dir.y as int, dir.z as int),
        dir.y == 0 ==> h == cam,
{
    let dist: i32 = if dir.y != 0 {
        proof {
            assert(abs_val(38400) <= 38400 * abs_val(dir.y as int)) by (nonlinear_arith)
                requires
                    abs_val(dir.y as int) >= 1,
            ;
            lemma_tdiv_le(38400, dir.y as int, 38400);
        }
        divide(150, dir.y)
    } else {
        0
    };
    proof {
        assert(abs_val(dist * dir.x) <= 9830400 && abs_val(dist * dir.y) <= 9830400 && abs_val(
            dist * dir.z,
        ) <= 9830400) by (nonlinear_arith)
            requires
                abs_val(dist as int) <= 38400,
                abs_val(dir.x as int) <= 256,
                abs_val(dir.y as int) <= 256,
                abs_val(dir.z as int) <= 256,
        ;
        if dir.y == 0 {
            assert(dist * dir.x == 0 && dist * dir.y == 0 && dist * dir.z == 0)
                by (nonlinear_arith)
                requires
                    dist == 0,
            ;
        }
    }
    Vec3 {
        x: cam.x + dist * dir.x,
        y: cam.y + dist * dir.y,
        z: cam.z + dist * dir.z,
    }
}

/// Sky shading for a rising ray (`d.y > 0`).
pub fn shade_sky(d: Vec3, hx: i32, hz: i32, light: Vec3) -> (rgb: (u8, u8, u8))
    requires
        d.y > 0,
        abs_val(d.x as int) <= 256,
        abs_val(d.y as int) <= 256,
        abs_val(d.z as int) <= 256,
        abs_val(light.x as int) <= 256,
        abs_val(light.y as int) <= 256,
        abs_val(light.z as int) <= 256,
    ensures
        ({
            let rgb_spec = sky_rgb(
                d.y as int,
                sky_level(hx as int, hz as int),
                dot3_spec(d, light),
            );
            rgb.0 as int == rgb_spec.0 && rgb.1 as int == rgb_spec.1 && rgb.2 as int
                == rgb_spec.2
        }),
{
    let c1: i32 = cos_at(fdiv32(hz, 2048)) as i32;
    let q8: i32 = fdiv32(hx, 256);
    proof {
        assert((-0x80000000int) / 256 == -0x800000);
        assert(0x7fffffffint / 256 == 0x7fffff);
        vstd::arithmetic::div_mod::lemma_div_is_ordered(i32::MIN as int, hx as int, 256);
        vstd::arithmetic::div_mod::lemma_div_is_ordered(hx as int, i32::MAX as int, 256);
    }
    let t: i32 = c1 + q8;
    let c2: i32 = cos_at(fdiv32(t, 2)) as i32;
    let c3: i32 = tdiv32(cos_at(tdiv32(hz, 500)) as i32, 4);
    let sky: i32 = c2 + c3 + 30;
    if sky < 0 {
        let g: u8 = emod32(sky, 256) as u8;
        (g, g, g)
    } else {
        proof {
            assert(abs_val(d.x * light.x) <= 65536 && abs_val(d.y * light.y) <= 65536 && abs_val(
                d.z * light.z,
            ) <= 65536) by (nonlinear_arith)
                requires
                    abs_val(d.x as int) <= 256,
                    abs_val(d.y as int) <= 256,
                    abs_val(d.z as int) <= 256,
                    abs_val(light.x as int) <= 256,
                    abs_val(light.y as int) <= 256,
                    abs_val(light.z as int) <= 256,
            ;
        }
        let dl: i32 = dot3(&d, &light);
        if dl < 64000 {
            let r: u8 = emod32(128 - tdiv32(128 * d.y, 255), 256) as u8;
            let g: u8 = emod32(179 - tdiv32(179 * d.y, 255), 256) as u8;
            let b: u8 = emod32(255 - tdiv32(76 * d.y, 255), 256) as u8;
            (r, g, b)
        } else {
            (188u8, 0u8, 45u8)
        }
    }
}

/// Ground shading for a falling ray (`d.y < 0`).
pub fn shade_ground(hx: i32, hz: i32) -> (rgb: (u8, u8, u8))
    ensures
        ({
            let rgb_spec = ground_rgb(hx as int, hz as int);
            rgb.0 as int == rgb_spec.0 && rgb.1 as int == rgb_spec.1 && rgb.2 as int
                == rgb_spec.2
        }),
{
    let tx: i32 = emod32(fdiv32(hx, 8192), 7);
    let tz: i32 = emod32(fdiv32(hz, 8192), 9);
    if tx == 0 && tz == 0 {
        (100u8, 100u8, 110u8)
    } else {
        let g: i32 = emod32(tdiv32(sin_at(tdiv32(hx, 20)) as i32, 2) + 55, 256);
        if g > 200 {
            (60u8, 60u8, 120u8)
        } else {
            (60u8, g as u8, 0u8)
        }
    }
}

/// Computes the color of the pixel at `p`: ray projection, ground-plane
/// hit, then sky, ground or exact-horizon shading by the sign of the
/// ray's vertical component.
pub fn shade_pixel(cam: Vec3, hcos: i32, hsin: i32, light: Vec3, p: Vec2) -> (rgb: (u8, u8, u8))
    requires
        0 <= p.x < 320,
        0 <= p.y < 200,
        -127 <= hcos <= 127,
        -127 <= hsin <= 127,
        abs_val(light.x as int) <= 256,
        abs_val(light.y as int) <= 256,
        abs_val(light.z as int) <= 256,
        i32::MIN + 9830400 <= cam.x <= i32::MAX - 9830400,
        i32::MIN + 9830400 <= cam.y <= i32::MAX - 9830400,
        i32::MIN + 9830400 <= cam.z <= i32::MAX - 9830400,
    ensures
        ({
            let rgb_spec = pixel_rgb(
                cam,
                hcos as int,
                hsin as int,
                light.x as int,
                light.y as int,
                light.z as int,
                p.x as int,
                p.y as int,
            );
            rgb.0 as int == rgb_spec.0 && rgb.1 as int == rgb_spec.1 && rgb.2 as int
                == rgb_spec.2
        }),
{
    let d = ray_direction(p, hcos, hsin);
    let hit = hit_point(cam, d);
    if d.y > 0 {
        shade_sky(d, hit.x, hit.z, light)
    } else if d.y < 0 {
        shade_ground(hit.x, hit.z)
    } else {
        (0u8, 0u8, 0u8)
    }
}

/// Renders the whole frame: a flat byte buffer of `320 * 200 * 3` RGB
/// bytes in row-major order, top row first, entirely determined by the
/// seven integer inputs. Returns `None` exactly when the light direction
/// is the zero vector, whose normalization has no value: callers must
/// treat that as a fatal precondition violation, not a tolerated case.
pub fn render(camera: Camera, light_direction: Vec3) -> (r: Option<Vec<u8>>)
    requires
        norm_sq(light_direction) <= 0x7fffffff,
        i32::MIN + 9830400 <= camera.position.x <= i32::MAX - 9830400,
        i32::MIN + 9830400 <= camera.position.y <= i32::MAX - 9830400,
        i32::MIN + 9830400 <= camera.position.z <= i32::MAX - 9830400,
    ensures
        (r is Some) <==> light_direction != (Vec3 { x: 0, y: 0, z: 0 }),
        r is Some ==> {
            let bytes = r->Some_0@;
            &&& bytes.len() == 192000
            &&& forall|k: int|
                0 <= k < 64000 ==> #[trigger] pixel_ok(
                    bytes,
                    k,
                    camera.position,
                    cos_at_spec(camera.heading as int),
                    sin_at_spec(camera.heading as int),
                    unit_x(light_direction),
                    unit_y(light_direction),
                    unit_z(light_direction),
                )
        },
{
    if light_direction.x == 0 && light_direction.y == 0 && light_direction.z == 0 {
        proof {
            assert(norm_sq(light_direction) == 0) by (nonlinear_arith)
                requires
                    light_direction.x == 0,
                    light_direction.y == 0,
                    light_direction.z == 0,
                    norm_sq(light_direction) == light_direction.x * light_direction.x
                        + light_direction.y * light_direction.y + light_direction.z
                        * light_direction.z,
            ;
        }
        return None;
    }
    proof {
        lemma_sq_nonneg(light_direction.x as int);
        lemma_sq_nonneg(light_direction.y as int);
        lemma_sq_nonneg(light_direction.z as int);
        assert(norm_sq(light_direction) > 0) by (nonlinear_arith)
            requires
                !(light_direction.x == 0 && light_direction.y == 0 && light_direction.z == 0),
                light_direction.x * light_direction.x >= 0,
                light_direction.y * light_direction.y >= 0,
                light_direction.z * light_direction.z >= 0,
                norm_sq(light_direction) == light_direction.x * light_direction.x
                    + light_direction.y * light_direction.y + light_direction.z
                    * light_direction.z,
        ;
    }
    let mut light = light_direction;
    unit3(&mut light);

    let hcos: i32 = cos_at(camera.heading) as i32;
    let hsin: i32 = sin_at(camera.heading) as i32;
    proof {
        crate::tables::lemma_sin_range(camera.heading as int);
        crate::tables::lemma_sin_range(camera.heading as int + 65);
    }

    let ghost lx: int = unit_x(light_direction);
    let ghost ly: int = unit_y(light_direction);
    let ghost lz: int = unit_z(light_direction);

    let mut buffer: Vec<u8> = Vec::new();
    let mut i: usize = 0;
    while i < 64000
        invariant
            0 <= i <= 64000,
            buffer@.len() == 3 * i,
            light.x == lx && light.y == ly && light.z == lz,
            abs_val(light.x as int) <= 256,
            abs_val(light.y as int) <= 256,
            abs_val(light.z as int) <= 256,
            hcos as int == cos_at_spec(camera.heading as int),
            hsin as int == sin_at_spec(camera.heading as int),
            -127 <= hcos <= 127,
            -127 <= hsin <= 127,
            i32::MIN + 9830400 <= camera.position.x <= i32::MAX - 9830400,
            i32::MIN + 9830400 <= camera.position.y <= i32::MAX - 9830400,
            i32::MIN + 9830400 <= camera.position.z <= i32::MAX - 9830400,
            forall|k: int|
                0 <= k < i ==> #[trigger] pixel_ok(
                    buffer@,
                    k,
                    camera.position,
                    hcos as int,
                    hsin as int,
                    lx,
                    ly,
                    lz,
                ),
        decreases 64000 - i,
    {
        let p = Vec2 { x: (i % 320) as i32, y: (i / 320) as i32 };
        let (cr, cg, cb) = shade_pixel(camera.position, hcos, hsin, light, p);
        let ghost before = buffer@;
        buffer.push(cr);
        buffer.push(cg);
        buffer.push(cb);
        i = i + 1;
        proof {
            assert forall|k: int| 0 <= k < i implies #[trigger] pixel_ok(
                buffer@,
                k,
                camera.position,
                hcos as int,
                hsin as int,
                lx,
                ly,
                lz,
            ) by {
                if k < i - 1 {
                    assert(pixel_ok(before, k, camera.position, hcos as int, hsin as int, lx, ly,
                    lz));
                    assert(buffer@[3 * k] == before[3 * k]);
                    assert(buffer@[3 * k + 1] == before[3 * k + 1]);
                    assert(buffer@[3 * k + 2] == before[3 * k + 2]);
                } else {
                    assert(p.x as int == k % 320 && p.y as int == k / 320);
                    assert(buffer@[3 * k] == cr && buffer@[3 * k + 1] == cg && buffer@[3 * k + 2]
                        == cb);
                }
            }
        }
    }
    Some(buffer)
}

/// Determinism: the per-pixel contract pins every byte of the frame, so
/// any two buffers that render the same seven-integer input (camera
/// position, heading cosine and sine, normalized light) are byte-identical.
pub proof fn lemma_render_deterministic(
    b1: Seq<u8>,
    b2: Seq<u8>,
    cam: Vec3,
    c: int,
    s: int,
    lx: int,
    ly: int,
    lz: int,
)
    requires
        b1.len() == 192000,
        b2.len() == 192000,
        forall|k: int| 0 <= k < 64000 ==> #[trigger] pixel_ok(b1, k, cam, c, s, lx, ly, lz),
        forall|k: int| 0 <= k < 64000 ==> #[trigger] pixel_ok(b2, k, cam, c, s, lx, ly, lz),
    ensures
        b1 == b2,
{
    assert forall|j: int| 0 <= j < 192000 implies b1[j] == b2[j] by {
        let k = j / 3;
        lemma_fundamental_div_mod(j, 3);
        lemma_mod_division_less_than_divisor(j, 3);
        assert(0 <= k < 64000);
        assert(pixel_ok(b1, k, cam, c, s, lx, ly, lz));
        assert(pixel_ok(b2, k, cam, c, s, lx, ly, lz));
        assert(j == 3 * k || j == 3 * k + 1 || j == 3 * k + 2);
    }
    assert(b1 =~= b2);
}

/// Road tiles: any pixel whose ray falls (`dir.y < 0`) and whose hit
/// point lands on a tile with column index 0 modulo 7 and row index 0
/// modulo 9 renders exactly (100, 100, 110), whatever the light.
pub proof fn lemma_road_tile(
    cam: Vec3,
    c: int,
    s: int,
    lx: int,
    ly: int,
    lz: int,
    px: int,
    py: int,
)
    requires
        dir_y(px, py, c, s) < 0,
        (hit_coord(cam.x as int, dir_y(px, py, c, s), dir_x(px, py, c, s)) / 8192) % 7 == 0,
        (hit_coord(cam.z as int, dir_y(px, py, c, s), dir_z(px, py, c, s)) / 8192) % 9 == 0,
    ensures
        pixel_rgb(cam, c, s, lx, ly, lz, px, py) == (100int, 100int, 110int),
{
}

} // verus!
