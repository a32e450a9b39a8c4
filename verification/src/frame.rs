//! The camera and frame generator: one ray per pixel from a pinhole camera
//! at the origin looking down the negative depth axis, plus the
//! quantization of the finished framebuffer into 8-bit channel triples.
//!
//! For pixel `(i, j)` of a `w x h` image the (pre-normalization) direction
//! is `((2i + 1 - w) * T / h, (h - 2j - 1) * T / h, -1)` in fixed-point
//! units, where `T` is the tangent of half the field of view. The `x`
//! formula already carries the aspect-ratio correction `w / h`, folded
//! into a single exact division.

use vstd::prelude::*;

use itertools::Itertools;

use crate::fixed::{div_trunc, divt, lemma_divt_le_num, lemma_mul_bound};
use crate::scene::{cast_ray, cast_ray_spec, lights_wf, spheres_wf};
use crate::tracing::{unit_of, Light, Sphere, Vec3f};

verus! {

/// The unit direction of the primary ray through pixel `(i, j)` of a
/// `w x h` image, where `t` is the fixed-point tangent of half the field
/// of view.
pub open spec fn pixel_dir(i: int, j: int, w: int, h: int, t: int) -> Vec3f {
    let xf = divt((2 * i + 1 - w) * t, h);
    let yf = divt((h - (2 * j + 1)) * t, h);
    unit_of(Vec3f(xf as i128, yf as i128, (-(crate::SCALE as int)) as i128))
}

/// Relies on itertools' `Itertools::cartesian_product`: pairing `0..rows`
/// with `0..cols` yields all pairs with the second range innermost, so the
/// `m`-th pair is `(m / cols, m % cols)`.
#[verifier::external_body]
fn pixel_pairs(rows: usize, cols: usize) -> (r: Vec<(usize, usize)>)
    requires
        rows * cols <= usize::MAX,
    ensures
        r@.len() == rows * cols,
        forall|m: int|
            0 <= m < r@.len() ==> (#[trigger] r@[m]).0 == m / (cols as int) && r@[m].1 == m % (
            cols as int),
{
    (0..rows).cartesian_product(0..cols).collect()
}

/// Row-major indexing: entry `i + j * w` of the framebuffer is pixel
/// `(i, j)`.
pub proof fn lemma_row_major(i: int, j: int, w: int)
    requires
        0 <= i < w,
        0 <= j,
    ensures
        (i + j * w) / w == j,
        (i + j * w) % w == i,
{
    vstd::arithmetic::div_mod::lemma_fundamental_div_mod_converse(i + j * w, w, j, i);
}

/// Fill a `width x height` framebuffer by casting one primary ray per
/// pixel. Entry `m` of the result is pixel `(m % width, m / width)`, i.e.
/// storage is row-major with index `i + j * width`, row `j = 0` on top.
pub fn generate_frame_buffer(
    spheres: &Vec<Sphere>,
    lights: &Vec<Light>,
    width: usize,
    height: usize,
    half_fov_tan: i128,
) -> (fb: Vec<Vec3f>)
    requires
        spheres_wf(spheres@),
        lights_wf(lights@),
        lights@.len() <= crate::LIGHTS_MAX,
        1 <= width <= crate::SIDE_MAX,
        1 <= height <= crate::SIDE_MAX,
        1 <= half_fov_tan <= crate::TAN_MAX,
    ensures
        fb@.len() == width * height,
        forall|m: int|
            0 <= m < fb@.len() ==> #[trigger] fb@[m] == cast_ray_spec(
                Vec3f(0, 0, 0),
                pixel_dir(
                    m % (width as int),
                    m / (width as int),
                    width as int,
                    height as int,
                    half_fov_tan as int,
                ),
                spheres@,
                lights@,
            ),
{
    proof {
        vstd::arithmetic::mul::lemma_mul_strict_inequality(0, 1, width as int);
        vstd::arithmetic::mul::lemma_mul_upper_bound(
            height as int,
            crate::SIDE_MAX as int,
            width as int,
            crate::SIDE_MAX as int,
        );
        vstd::arithmetic::mul::lemma_mul_is_commutative(height as int, width as int);
    }
    let pairs = pixel_pairs(height, width);
    let mut fb: Vec<Vec3f> = Vec::new();
    let mut m: usize = 0;
    while m < pairs.len()
        invariant
            spheres_wf(spheres@),
            lights_wf(lights@),
            lights@.len() <= crate::LIGHTS_MAX,
            1 <= width <= crate::SIDE_MAX,
            1 <= height <= crate::SIDE_MAX,
            1 <= half_fov_tan <= crate::TAN_MAX,
            pairs@.len() == height * width,
            height * width == width * height,
            forall|mm: int|
                0 <= mm < pairs@.len() ==> (#[trigger] pairs@[mm]).0 == mm / (width as int)
                    && pairs@[mm].1 == mm % (width as int),
            0 <= m <= pairs@.len(),
            fb@.len() == m,
            forall|mm: int|
                0 <= mm < m ==> #[trigger] fb@[mm] == cast_ray_spec(
                    Vec3f(0, 0, 0),
                    pixel_dir(
                        mm % (width as int),
                        mm / (width as int),
                        width as int,
                        height as int,
                        half_fov_tan as int,
                    ),
                    spheres@,
                    lights@,
                ),
        decreases pairs@.len() - m,
    {
        let pr = pairs[m];
        let j = pr.0;
        let i = pr.1;
        proof {
            vstd::arithmetic::div_mod::lemma_multiply_divide_lt(
                m as int,
                width as int,
                height as int,
            );
            vstd::arithmetic::div_mod::lemma_mod_division_less_than_divisor(
                m as int,
                width as int,
            );
        }
        let ax: i128 = 2 * (i as i128) + 1 - (width as i128);
        let by: i128 = (height as i128) - (2 * (j as i128) + 1);
        proof {
            lemma_mul_bound(ax as int, half_fov_tan as int, 0x2_0000, 0x1_0000_0000);
            lemma_mul_bound(by as int, half_fov_tan as int, 0x2_0000, 0x1_0000_0000);
            lemma_divt_le_num(
                ax as int * half_fov_tan as int,
                height as int,
                (0x2_0000 * 0x1_0000_0000) as int,
            );
            lemma_divt_le_num(
                by as int * half_fov_tan as int,
                height as int,
                (0x2_0000 * 0x1_0000_0000) as int,
            );
        }
        let xf = div_trunc(ax * half_fov_tan, height as i128);
        let yf = div_trunc(by * half_fov_tan, height as i128);
        let v = Vec3f(xf, yf, -crate::SCALE);
        let dir = v.normalize();
        proof {
            assert(dir == pixel_dir(
                i as int,
                j as int,
                width as int,
                height as int,
                half_fov_tan as int,
            ));
        }
        let c = cast_ray(Vec3f(0, 0, 0), dir, spheres, lights);
        fb.push(c);
        m = m + 1;
    }
    fb
}

/// Clamp a fixed-point channel to one unit and quantize it to 8 bits:
/// `floor(255.999 * clamped)`, written over integers as
/// `(255999 * clamped) / 65536000`.
pub open spec fn quantize(c: int) -> int {
    let cc = if c < 0 {
        0
    } else if c > crate::SCALE {
        crate::SCALE as int
    } else {
        c
    };
    (255999 * cc) / 65536000
}

/// Executable counterpart of `quantize`; always lands in `0..=255`.
pub fn quantize_channel(c: i128) -> (r: u8)
    ensures
        r as int == quantize(c as int),
{
    let cc: i128 = if c < 0 {
        0
    } else if c > crate::SCALE {
        crate::SCALE
    } else {
        c
    };
    let num: u128 = 255999u128 * (cc as u128);
    proof {
        vstd::arithmetic::div_mod::lemma_div_is_ordered(
            255999 * cc as int,
            (255999 * 65536) as int,
            65536000,
        );
        vstd::arithmetic::div_mod::lemma_div_pos_is_pos(255999 * cc as int, 65536000);
    }
    let q: u128 = num / 65536000u128;
    q as u8
}

/// Quantize every framebuffer entry into an `(r, g, b)` byte triple.
pub fn get_pixels(frame_buffer: &Vec<Vec3f>) -> (r: Vec<(u8, u8, u8)>)
    ensures
        r@.len() == frame_buffer@.len(),
        forall|m: int|
            0 <= m < r@.len() ==> #[trigger] r@[m] == (
                quantize(frame_buffer@[m].0 as int) as u8,
                quantize(frame_buffer@[m].1 as int) as u8,
                quantize(frame_buffer@[m].2 as int) as u8,
            ),
{
    let mut r: Vec<(u8, u8, u8)> = Vec::new();
    let mut m: usize = 0;
    while m < frame_buffer.len()
        invariant
            0 <= m <= frame_buffer@.len(),
            r@.len() == m,
            forall|mm: int|
                0 <= mm < m ==> #[trigger] r@[mm] == (
                    quantize(frame_buffer@[mm].0 as int) as u8,
                    quantize(frame_buffer@[mm].1 as int) as u8,
                    quantize(frame_buffer@[mm].2 as int) as u8,
                ),
        decreases frame_buffer@.len() - m,
    {
        let cell = frame_buffer[m];
        let triple = (
            quantize_channel(cell.0),
            quantize_channel(cell.1),
            quantize_channel(cell.2),
        );
        r.push(triple);
        m = m + 1;
    }
    r
}

/// Render a complete image: fill the framebuffer and quantize it. Entry
/// `i + j * width` of the result is the quantized color of pixel `(i, j)`.
pub fn render(
    spheres: &Vec<Sphere>,
    lights: &Vec<Light>,
    width: usize,
    height: usize,
    half_fov_tan: i128,
) -> (r: Vec<(u8, u8, u8)>)
    requires
        spheres_wf(spheres@),
        lights_wf(lights@),
        lights@.len() <= crate::LIGHTS_MAX,
        1 <= width <= crate::SIDE_MAX,
        1 <= height <= crate::SIDE_MAX,
        1 <= half_fov_tan <= crate::TAN_MAX,
    ensures
        r@.len() == width * height,
        forall|m: int|
            0 <= m < r@.len() ==> #[trigger] r@[m] == ({
                let c = cast_ray_spec(
                    Vec3f(0, 0, 0),
                    pixel_dir(
                        m % (width as int),
                        m / (width as int),
                        width as int,
                        height as int,
                        half_fov_tan as int,
                    ),
                    spheres@,
                    lights@,
                );
                (quantize(c.0 as int) as u8, quantize(c.1 as int) as u8, quantize(c.2 as int) as u8)
            }),
{
    let fb = generate_frame_buffer(spheres, lights, width, height, half_fov_tan);
    get_pixels(&fb)
}

} // verus!
