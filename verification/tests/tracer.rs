use tinyraytracer::frame::{generate_frame_buffer, get_pixels, quantize_channel, render};
use tinyraytracer::scene::{background_color, cast_ray, scene_intersect};
use tinyraytracer::tracing::{Light, Material, Ray, Sphere, Vec3f};
use tinyraytracer::SCALE;

const S: i128 = SCALE; // 65536 fixed-point units per 1.0

fn ivory() -> Material {
    // (0.4, 0.4, 0.3) in fixed point
    Material::new(Vec3f(26214, 26214, 19660))
}

fn red() -> Material {
    Material::new(Vec3f(S, 0, 0))
}

fn green() -> Material {
    Material::new(Vec3f(0, S, 0))
}

#[test]
fn vector_ops_are_exact() {
    let a = Vec3f(S, 2 * S, -3 * S);
    let b = Vec3f(1, 2, 3);
    assert_eq!(a.add(b), Vec3f(S + 1, 2 * S + 2, -3 * S + 3));
    assert_eq!(a.sub(b), Vec3f(S - 1, 2 * S - 2, -3 * S - 3));
    assert_eq!(Vec3f(S, 2 * S, 3 * S).dot(Vec3f(S, S, S)), 6 * S);
    assert_eq!(Vec3f(S, -2 * S, 3 * S).scale(S / 2), Vec3f(S / 2, -S, 3 * S / 2));
    // fixed-point division truncates toward zero
    assert_eq!(Vec3f(-1, 0, 0).dot(Vec3f(S / 2, 0, 0)), 0);
}

#[test]
fn norm_is_exact_integer_sqrt() {
    assert_eq!(Vec3f(3 * S, 4 * S, 0).norm(), 5 * S);
    assert_eq!(Vec3f(0, 0, 0).norm(), 0);
    assert_eq!(Vec3f(1, 0, 0).norm(), 1);
    // floor(sqrt(3) * 65536) = 113511
    assert_eq!(Vec3f(S, S, S).norm(), 113511);
}

#[test]
fn normalize_components() {
    assert_eq!(Vec3f(3 * S, 4 * S, 0).normalize(), Vec3f(39321, 52428, 0));
    // truncation is toward zero on negative components as well
    assert_eq!(Vec3f(-3 * S, -4 * S, 0).normalize(), Vec3f(-39321, -52428, 0));
    assert_eq!(Vec3f(0, 0, -5 * S).normalize(), Vec3f(0, 0, -S));
}

#[test]
fn norm_of_normalized_is_one_unit() {
    // norm(normalize(v)) == 1.0 within a few counts, for |v| >= 1
    let samples = [
        Vec3f(3 * S, 4 * S, 0),
        Vec3f(S, S, S),
        Vec3f(10 * S, -7 * S, 3 * S),
        Vec3f(0, 0, 9 * S),
        Vec3f(123456, -654321, 777777),
    ];
    for v in samples {
        let n = v.normalize().norm();
        assert!(S - 4 <= n && n <= S, "norm was {n}");
    }
}

#[test]
fn center_ray_hits_at_analytic_root() {
    // sphere of radius 2 at depth 5 on the optical axis: the analytic
    // near root is exactly 3, and the integer test reproduces it exactly
    let sphere = Sphere::new(Vec3f(0, 0, -5 * S), 2 * S, ivory());
    assert_eq!(sphere.intersect(Vec3f(0, 0, 0), Vec3f(0, 0, -S)), Some(3 * S));
}

#[test]
fn ray_from_inside_uses_far_root() {
    let sphere = Sphere::new(Vec3f(0, 0, 0), 2 * S, ivory());
    assert_eq!(sphere.intersect(Vec3f(0, 0, 0), Vec3f(0, 0, -S)), Some(2 * S));
}

#[test]
fn sphere_behind_origin_misses() {
    let sphere = Sphere::new(Vec3f(0, 0, 5 * S), S, ivory());
    assert_eq!(sphere.intersect(Vec3f(0, 0, 0), Vec3f(0, 0, -S)), None);
}

#[test]
fn ray_outside_bounding_distance_misses() {
    let sphere = Sphere::new(Vec3f(10 * S, 0, -10 * S), S, ivory());
    assert_eq!(sphere.intersect(Vec3f(0, 0, 0), Vec3f(0, 0, -S)), None);
}

#[test]
fn nearest_sphere_wins_either_order() {
    let near = Sphere::new(Vec3f(0, 0, -5 * S), S, red());
    let far = Sphere::new(Vec3f(0, 0, -8 * S), S, green());
    for spheres in [vec![near, far], vec![far, near]] {
        let hit = scene_intersect(Vec3f(0, 0, 0), Vec3f(0, 0, -S), &spheres)
            .expect("both spheres lie on the ray");
        assert_eq!(hit.material.diffuse_color, red().diffuse_color);
        assert_eq!(hit.hit, Vec3f(0, 0, -4 * S));
        assert_eq!(hit.normal, Vec3f(0, 0, S));
    }
}

#[test]
fn equal_distances_first_sphere_wins() {
    // two spheres with the same geometry but different materials: the
    // reported distances tie, and the first in the list wins
    let a = Sphere::new(Vec3f(0, 0, -5 * S), S, red());
    let b = Sphere::new(Vec3f(0, 0, -5 * S), S, green());
    let hit = scene_intersect(Vec3f(0, 0, 0), Vec3f(0, 0, -S), &vec![a, b]).unwrap();
    assert_eq!(hit.material.diffuse_color, red().diffuse_color);
    let hit = scene_intersect(Vec3f(0, 0, 0), Vec3f(0, 0, -S), &vec![b, a]).unwrap();
    assert_eq!(hit.material.diffuse_color, green().diffuse_color);
}

#[test]
fn degenerate_hit_is_kept_and_shades_black() {
    // a sphere of radius one count: the hit point rounds onto the center,
    // so the record carries the stand-in zero normal. The hit still takes
    // part in nearest-hit resolution (it occludes the sphere behind) and
    // shades black.
    let tiny = Sphere::new(Vec3f(0, 0, 0), 1, red());
    let behind = Sphere::new(Vec3f(0, 0, -5 * S), S, green());
    let dir = Vec3f(1, 0, -(S - 1));
    let spheres = vec![tiny, behind];
    let rec = scene_intersect(Vec3f(0, 0, 0), dir, &spheres).expect("the tiny sphere is hit");
    assert_eq!(rec.material.diffuse_color, red().diffuse_color);
    assert_eq!(rec.hit, Vec3f(0, 0, 0));
    assert_eq!(rec.normal, Vec3f(0, 0, 0));
    let lights = vec![Light { position: Vec3f(0, 0, S), intensity: S }];
    let c = cast_ray(Vec3f(0, 0, 0), dir, &spheres, &lights);
    assert_eq!(c, Vec3f(0, 0, 0));
}

#[test]
fn empty_scene_intersects_nothing() {
    let spheres: Vec<Sphere> = vec![];
    assert!(scene_intersect(Vec3f(0, 0, 0), Vec3f(0, 0, -S), &spheres).is_none());
}

#[test]
fn miss_returns_background_exactly() {
    let spheres = vec![Sphere::new(Vec3f(0, 0, -5 * S), 2 * S, ivory())];
    let lights = vec![Light { position: Vec3f(0, 0, 0), intensity: S }];
    // the ray looks away from the only sphere
    let c = cast_ray(Vec3f(0, 0, 0), Vec3f(0, 0, S), &spheres, &lights);
    assert_eq!(c, background_color());
    assert_eq!(c, Vec3f(13107, 45875, 52428));
}

#[test]
fn lights_behind_surface_shade_black() {
    let spheres = vec![Sphere::new(Vec3f(0, 0, -5 * S), 2 * S, ivory())];
    // the light sits behind the sphere as seen from the hit point
    let lights = vec![Light { position: Vec3f(0, 0, -20 * S), intensity: S }];
    let c = cast_ray(Vec3f(0, 0, 0), Vec3f(0, 0, -S), &spheres, &lights);
    assert_eq!(c, Vec3f(0, 0, 0));
}

#[test]
fn head_on_light_gives_material_color() {
    // a unit light straight along the normal: cosine is exactly 1.0, so
    // the shaded color equals the diffuse color, channel ratios included
    let spheres = vec![Sphere::new(Vec3f(0, 0, -5 * S), 2 * S, ivory())];
    let lights = vec![Light { position: Vec3f(0, 0, 0), intensity: S }];
    let c = cast_ray(Vec3f(0, 0, 0), Vec3f(0, 0, -S), &spheres, &lights);
    assert_eq!(c, ivory().diffuse_color);
}

#[test]
fn shading_is_nonnegative() {
    let spheres = vec![Sphere::new(Vec3f(0, 0, -5 * S), 2 * S, ivory())];
    let lights = vec![
        Light { position: Vec3f(20 * S, 0, -3 * S), intensity: S },
        Light { position: Vec3f(0, 0, -20 * S), intensity: S / 2 },
    ];
    let c = cast_ray(Vec3f(0, 0, 0), Vec3f(0, 0, -S), &spheres, &lights);
    assert!(c.0 >= 0 && c.1 >= 0 && c.2 >= 0);
}

#[test]
fn quantize_clamps_and_rounds_down() {
    assert_eq!(quantize_channel(-100), 0);
    assert_eq!(quantize_channel(0), 0);
    assert_eq!(quantize_channel(S), 255);
    assert_eq!(quantize_channel(100_000), 255);
    assert_eq!(quantize_channel(S / 2), 127);
    assert_eq!(quantize_channel(13107), 51);
}

#[test]
fn end_to_end_single_sphere() {
    // one sphere at (0, 0, -5) of radius 2, material (0.4, 0.4, 0.3), a
    // unit light at the origin, fov 90 degrees (tan of half fov = 1.0),
    // 3 x 3 pixels: only the center ray hits, head on, so its pixel is
    // the quantized material color and the rest are background
    let spheres = vec![Sphere::new(Vec3f(0, 0, -5 * S), 2 * S, ivory())];
    let lights = vec![Light { position: Vec3f(0, 0, 0), intensity: S }];
    let px = render(&spheres, &lights, 3, 3, S);
    assert_eq!(px.len(), 9);
    let bg = (51u8, 179u8, 204u8);
    for (m, p) in px.iter().enumerate() {
        if m == 4 {
            assert_eq!(*p, (102, 102, 76));
        } else {
            assert_eq!(*p, bg);
        }
    }
}

#[test]
fn empty_scene_renders_background_everywhere() {
    let spheres: Vec<Sphere> = vec![];
    let lights = vec![Light { position: Vec3f(-20 * S, 20 * S, 20 * S), intensity: 3 * S / 2 }];
    let px = render(&spheres, &lights, 4, 3, S);
    assert_eq!(px.len(), 12);
    for p in px {
        assert_eq!(p, (51, 179, 204));
    }
    // and the un-quantized framebuffer holds the exact background color
    let fb = generate_frame_buffer(&spheres, &lights, 4, 3, S);
    assert_eq!(fb.len(), 12);
    for c in fb {
        assert_eq!(c, Vec3f(13107, 45875, 52428));
    }
}

#[test]
fn framebuffer_is_row_major() {
    // 2 x 1 image: the sphere sits far on the +x side, so only the pixel
    // with i = 1 (the second entry) leaves the background
    let spheres = vec![Sphere::new(Vec3f(5 * S, 0, -5 * S), 2 * S, red())];
    let lights = vec![Light { position: Vec3f(0, 0, 0), intensity: S }];
    let px = render(&spheres, &lights, 2, 1, S);
    assert_eq!(px.len(), 2);
    assert_eq!(px[0], (51, 179, 204));
    assert_ne!(px[1], (51, 179, 204));
}

#[test]
fn get_pixels_quantizes_every_cell() {
    let fb = vec![Vec3f(0, S, 2 * S), Vec3f(-S, S / 2, 13107)];
    let px = get_pixels(&fb);
    assert_eq!(px, vec![(0, 255, 255), (0, 127, 51)]);
}

#[test]
fn constructors_and_getters() {
    let m = Material::new(Vec3f(1, 2, 3));
    assert_eq!(m.diffuse_color, Vec3f(1, 2, 3));
    let sp = Sphere::new(Vec3f(-3 * S, 0, -16 * S), 2 * S, m);
    assert_eq!(sp.get_center(), Vec3f(-3 * S, 0, -16 * S));
    assert_eq!(sp.get_material().diffuse_color, Vec3f(1, 2, 3));
    assert_eq!(sp.radius, 2 * S);
}
