//! Scene-level ray casting: nearest-hit resolution across a list of
//! spheres, and Lambertian diffuse shading summed over the point lights.
//!
//! The nearest hit wins: among the spheres the ray meets, the one with
//! the smallest reported distance determines the visible surface, and on
//! a tie the earliest in the list. In the degenerate corner where the
//! (rounded) hit point coincides with the sphere's own center — possible
//! only for radii below one fixed-point count or near-degenerate
//! directions — no outward direction exists, and the record carries the
//! zero vector as a stand-in normal; every diffuse cosine against it is
//! zero, so such a hit shades black.

use vstd::prelude::*;

use crate::fixed::{divt, fxm, fxmul, lemma_divt_bound, lemma_mul_bound, lemma_sqrt_floor_is};
use crate::tracing::{
    dot_raw, in_range, is_zero, lemma_dot_raw_bound, lemma_unit_norm, norm_raw, sphere_d2q,
    sphere_dist, sphere_hits, sphere_r2q, unit_of, Light, Material, Ray, Sphere, Vec3f,
};

verus! {

/// Componentwise difference at spec level.
pub open spec fn vsub_spec(a: Vec3f, b: Vec3f) -> Vec3f {
    Vec3f((a.0 - b.0) as i128, (a.1 - b.1) as i128, (a.2 - b.2) as i128)
}

/// Componentwise fixed-point scaling at spec level.
pub open spec fn vscale_spec(v: Vec3f, k: int) -> Vec3f {
    Vec3f(fxm(v.0 as int, k) as i128, fxm(v.1 as int, k) as i128, fxm(v.2 as int, k) as i128)
}

/// The point reached after travelling distance `t` from `o` along `d`.
pub open spec fn hit_point(o: Vec3f, d: Vec3f, t: int) -> Vec3f {
    Vec3f(
        (o.0 + fxm(d.0 as int, t)) as i128,
        (o.1 + fxm(d.1 as int, t)) as i128,
        (o.2 + fxm(d.2 as int, t)) as i128,
    )
}

/// The outward unit normal at the hit point of `s`; the zero vector as a
/// stand-in when the rounded hit point lands exactly on the center.
pub open spec fn normal_of(s: Sphere, o: Vec3f, d: Vec3f) -> Vec3f {
    let off = vsub_spec(hit_point(o, d, sphere_dist(s, o, d)), s.center);
    if is_zero(off) {
        Vec3f(0, 0, 0)
    } else {
        unit_of(off)
    }
}

/// The intersection record handed to the shader.
#[derive(Clone, Copy, PartialEq, Eq, Structural, Debug)]
pub struct Intersect {
    pub material: Material,
    pub hit: Vec3f,
    pub normal: Vec3f,
}

/// The surface normal in a hit record is unit length: whenever the hit
/// point lies at least one whole unit (`SCALE`) from the sphere center —
/// as it does for any sphere of radius at least one unit hit by a
/// near-unit direction — the normal's norm is one unit, up to a few
/// counts of rounding. Below that offset the direction carries too little
/// precision, and in the extreme case the stand-in zero normal appears.
pub proof fn lemma_normal_unit(s: Sphere, o: Vec3f, d: Vec3f)
    requires
        in_range(vsub_spec(hit_point(o, d, sphere_dist(s, o, d)), s.center), 0x4_0000_0000_0000),
        norm_raw(vsub_spec(hit_point(o, d, sphere_dist(s, o, d)), s.center)) >= crate::SCALE as int,
    ensures
        crate::SCALE as int - 4 <= norm_raw(normal_of(s, o, d)) <= crate::SCALE as int,
{
    let off = vsub_spec(hit_point(o, d, sphere_dist(s, o, d)), s.center);
    if is_zero(off) {
        assert(off.0 * off.0 + off.1 * off.1 + off.2 * off.2 == 0) by (nonlinear_arith)
            requires
                off.0 == 0,
                off.1 == 0,
                off.2 == 0,
        ;
        assert(dot_raw(off, off) == 0);
        lemma_sqrt_floor_is(0, 0);
        assert(norm_raw(off) == 0);
    }
    lemma_unit_norm(off);
}

/// The record produced for sphere `s`.
pub open spec fn intersect_of(s: Sphere, o: Vec3f, d: Vec3f) -> Intersect {
    Intersect {
        material: s.material,
        hit: hit_point(o, d, sphere_dist(s, o, d)),
        normal: normal_of(s, o, d),
    }
}

pub open spec fn spheres_wf(spheres: Seq<Sphere>) -> bool {
    forall|i: int| 0 <= i < spheres.len() ==> (#[trigger] spheres[i]).wf()
}

pub open spec fn lights_wf(lights: Seq<Light>) -> bool {
    forall|i: int| 0 <= i < lights.len() ==> (#[trigger] lights[i]).wf()
}

/// Some sphere in the scene is met by this ray.
pub open spec fn any_hit(spheres: Seq<Sphere>, o: Vec3f, d: Vec3f) -> bool {
    exists|i: int| 0 <= i < spheres.len() && sphere_hits(#[trigger] spheres[i], o, d)
}

/// Index `i` wins among the first `k` spheres: the ray meets it, every
/// earlier hit sphere is strictly farther, and every later one (below
/// `k`) is at least as far. This pins the first sphere achieving the
/// minimum distance.
pub open spec fn is_winner_upto(spheres: Seq<Sphere>, o: Vec3f, d: Vec3f, i: int, k: int) -> bool {
    &&& 0 <= i < k <= spheres.len()
    &&& sphere_hits(spheres[i], o, d)
    &&& forall|j: int|
        0 <= j < i ==> !sphere_hits(#[trigger] spheres[j], o, d) || sphere_dist(
            spheres[j],
            o,
            d,
        ) > sphere_dist(spheres[i], o, d)
    &&& forall|j: int|
        i < j < k ==> !sphere_hits(#[trigger] spheres[j], o, d) || sphere_dist(
            spheres[j],
            o,
            d,
        ) >= sphere_dist(spheres[i], o, d)
}

/// Index `i` wins over the whole scene.
pub open spec fn is_winner(spheres: Seq<Sphere>, o: Vec3f, d: Vec3f, i: int) -> bool {
    is_winner_upto(spheres, o, d, i, spheres.len() as int)
}

/// The winning index (meaningful when some sphere is hit).
pub open spec fn winner_of(spheres: Seq<Sphere>, o: Vec3f, d: Vec3f) -> int {
    choose|i: int| is_winner(spheres, o, d, i)
}

/// At most one index wins: the winner is nearest, and the first such.
pub proof fn lemma_winner_unique(spheres: Seq<Sphere>, o: Vec3f, d: Vec3f, i: int, j: int)
    requires
        is_winner(spheres, o, d, i),
        is_winner(spheres, o, d, j),
    ensures
        i == j,
{
    if i < j {
        assert(sphere_dist(spheres[i], o, d) > sphere_dist(spheres[j], o, d));
        assert(sphere_dist(spheres[j], o, d) >= sphere_dist(spheres[i], o, d));
    } else if j < i {
        assert(sphere_dist(spheres[j], o, d) > sphere_dist(spheres[i], o, d));
        assert(sphere_dist(spheres[i], o, d) >= sphere_dist(spheres[j], o, d));
    }
}

/// The winner's distance is minimal: no hit sphere is nearer.
pub proof fn lemma_winner_is_nearest(spheres: Seq<Sphere>, o: Vec3f, d: Vec3f, i: int, j: int)
    requires
        is_winner(spheres, o, d, i),
        0 <= j < spheres.len(),
        sphere_hits(spheres[j], o, d),
    ensures
        sphere_dist(spheres[j], o, d) >= sphere_dist(spheres[i], o, d),
{
}

/// Sphere declaration order has no semantic effect beyond tie-breaking:
/// two scenes holding the same spheres (as a multiset) have the same
/// winning sphere — hence the same material, hit point and normal —
/// whenever no two distinct sphere values report the same distance along
/// the ray.
pub proof fn lemma_order_irrelevant(
    spheres1: Seq<Sphere>,
    spheres2: Seq<Sphere>,
    o: Vec3f,
    d: Vec3f,
    i1: int,
    i2: int,
)
    requires
        spheres1.to_multiset() == spheres2.to_multiset(),
        is_winner(spheres1, o, d, i1),
        is_winner(spheres2, o, d, i2),
        forall|j: int, k: int|
            0 <= j < spheres1.len() && 0 <= k < spheres1.len() && spheres1[j] != spheres1[k]
                && sphere_hits(#[trigger] spheres1[j], o, d) && sphere_hits(
                #[trigger] spheres1[k],
                o,
                d,
            ) ==> sphere_dist(spheres1[j], o, d) != sphere_dist(spheres1[k], o, d),
    ensures
        spheres1[i1] == spheres2[i2],
        intersect_of(spheres1[i1], o, d) == intersect_of(spheres2[i2], o, d),
{
    spheres1.to_multiset_ensures();
    spheres2.to_multiset_ensures();
    let s1 = spheres1[i1];
    let s2 = spheres2[i2];
    assert(spheres2.contains(s2));
    assert(spheres1.to_multiset().count(s2) > 0);
    assert(spheres1.contains(s2));
    let k1 = choose|k: int| 0 <= k < spheres1.len() && spheres1[k] == s2;
    assert(spheres1.contains(s1));
    assert(spheres2.to_multiset().count(s1) > 0);
    assert(spheres2.contains(s1));
    let k2 = choose|k: int| 0 <= k < spheres2.len() && spheres2[k] == s1;
    lemma_winner_is_nearest(spheres1, o, d, i1, k1);
    lemma_winner_is_nearest(spheres2, o, d, i2, k2);
    assert(sphere_dist(s1, o, d) == sphere_dist(s2, o, d));
    if s1 != s2 {
        assert(sphere_hits(spheres1[i1], o, d));
        assert(sphere_hits(spheres1[k1], o, d));
        assert(spheres1[i1] != spheres1[k1]);
        assert(false);
    }
}

/// The scaled direction components stay within `DIST_MAX` when the travel
/// distance does.
proof fn lemma_step_bound(d: Vec3f, t: int)
    requires
        in_range(d, crate::SCALE as int),
        0 <= t <= crate::DIST_MAX as int,
    ensures
        -(crate::DIST_MAX as int) <= fxm(d.0 as int, t) <= crate::DIST_MAX as int,
        -(crate::DIST_MAX as int) <= fxm(d.1 as int, t) <= crate::DIST_MAX as int,
        -(crate::DIST_MAX as int) <= fxm(d.2 as int, t) <= crate::DIST_MAX as int,
{
    lemma_mul_bound(d.0 as int, t, 0x1_0000, 0x4000_0000_0000);
    lemma_mul_bound(d.1 as int, t, 0x1_0000, 0x4000_0000_0000);
    lemma_mul_bound(d.2 as int, t, 0x1_0000, 0x4000_0000_0000);
    lemma_divt_bound(d.0 as int * t, 0x1_0000, (0x1_0000 * 0x4000_0000_0000) as int);
    lemma_divt_bound(d.1 as int * t, 0x1_0000, (0x1_0000 * 0x4000_0000_0000) as int);
    lemma_divt_bound(d.2 as int * t, 0x1_0000, (0x1_0000 * 0x4000_0000_0000) as int);
}

/// Scan every sphere and return the record of the nearest hit, or
/// `None` exactly when the ray meets no sphere. Earlier spheres win
/// ties.
pub fn scene_intersect(orig: Vec3f, dir: Vec3f, spheres: &Vec<Sphere>) -> (r: Option<Intersect>)
    requires
        spheres_wf(spheres@),
        in_range(orig, crate::COORD_MAX as int),
        in_range(dir, crate::SCALE as int),
    ensures
        r is None <==> !any_hit(spheres@, orig, dir),
        r matches Some(rec) ==> {
            &&& is_winner(spheres@, orig, dir, winner_of(spheres@, orig, dir))
            &&& rec == intersect_of(spheres@[winner_of(spheres@, orig, dir)], orig, dir)
            &&& in_range(rec.hit, 0x8000_0000_0000)
            &&& in_range(rec.normal, crate::SCALE as int)
        },
{
    let mut best: Option<Intersect> = None;
    let mut best_dist: i128 = 0;
    let ghost mut best_i: int = 0;
    let mut idx: usize = 0;
    while idx < spheres.len()
        invariant
            spheres_wf(spheres@),
            in_range(orig, crate::COORD_MAX as int),
            in_range(dir, crate::SCALE as int),
            0 <= idx <= spheres@.len(),
            best is None ==> forall|j: int|
                0 <= j < idx ==> !sphere_hits(#[trigger] spheres@[j], orig, dir),
            best matches Some(rec) ==> {
                &&& is_winner_upto(spheres@, orig, dir, best_i, idx as int)
                &&& rec == intersect_of(spheres@[best_i], orig, dir)
                &&& best_dist == sphere_dist(spheres@[best_i], orig, dir)
                &&& in_range(rec.hit, 0x8000_0000_0000)
                &&& in_range(rec.normal, crate::SCALE as int)
            },
        decreases spheres@.len() - idx,
    {
        let sph = spheres[idx];
        if let Some(t) = sph.intersect(orig, dir) {
            proof {
                lemma_step_bound(dir, t as int);
            }
            let step = dir.scale(t);
            let hit = orig.add(step);
            let offset = hit.sub(sph.center);
            proof {
                assert(offset == vsub_spec(
                    hit_point(orig, dir, sphere_dist(spheres@[idx as int], orig, dir)),
                    spheres@[idx as int].center,
                ));
            }
            let normal = if offset.0 != 0 || offset.1 != 0 || offset.2 != 0 {
                offset.normalize()
            } else {
                Vec3f(0, 0, 0)
            };
            let rec = Intersect { material: sph.get_material(), hit, normal };
            proof {
                assert(rec == intersect_of(spheres@[idx as int], orig, dir));
            }
            if best.is_none() {
                best = Some(rec);
                best_dist = t;
                proof {
                    best_i = idx as int;
                }
            } else if t < best_dist {
                best = Some(rec);
                best_dist = t;
                proof {
                    best_i = idx as int;
                }
            }
        }
        idx = idx + 1;
    }
    proof {
        if best is Some {
            assert(is_winner(spheres@, orig, dir, best_i));
            assert(sphere_hits(spheres@[best_i], orig, dir));
            assert(exists|i: int| is_winner(spheres@, orig, dir, i));
            lemma_winner_unique(spheres@, orig, dir, best_i, winner_of(spheres@, orig, dir));
        }
    }
    best
}

/// The fixed sky color returned for rays that hit nothing:
/// (0.2, 0.7, 0.8) rounded down to fixed-point units.
pub open spec fn background() -> Vec3f {
    Vec3f(13107, 45875, 52428)
}

/// Executable counterpart of `background`.
pub fn background_color() -> (r: Vec3f)
    ensures
        r == background(),
{
    Vec3f(13107, 45875, 52428)
}

/// The diffuse contribution of one light at a surface point with unit
/// normal `n`: `intensity * max(0, cos)`, where `cos` is the fixed-point
/// dot product of the unit direction toward the light with the normal. A
/// light sitting exactly on the surface point has no direction and
/// contributes nothing.
pub open spec fn light_term(light: Light, hit: Vec3f, n: Vec3f) -> int {
    if light.position == hit {
        0
    } else {
        let ldir = unit_of(vsub_spec(light.position, hit));
        let cos = divt(dot_raw(ldir, n), crate::SCALE as int);
        if cos >= 0 {
            fxm(light.intensity as int, cos)
        } else {
            0
        }
    }
}

/// The summed diffuse intensity over all lights.
pub open spec fn intensity_sum(lights: Seq<Light>, hit: Vec3f, n: Vec3f) -> int
    decreases lights.len(),
{
    if lights.len() == 0 {
        0
    } else {
        intensity_sum(lights.drop_last(), hit, n) + light_term(lights.last(), hit, n)
    }
}

/// What a cast ray evaluates to: the background on a miss, otherwise the
/// winning sphere's diffuse color scaled by the summed light intensity.
pub open spec fn cast_ray_spec(o: Vec3f, d: Vec3f, spheres: Seq<Sphere>, lights: Seq<Light>) -> Vec3f {
    if !any_hit(spheres, o, d) {
        background()
    } else {
        let s = spheres[winner_of(spheres, o, d)];
        let hit = hit_point(o, d, sphere_dist(s, o, d));
        let n = normal_of(s, o, d);
        vscale_spec(s.material.diffuse_color, intensity_sum(lights, hit, n))
    }
}

/// Cast one ray into the scene: resolve the nearest hit and shade it by
/// Lambertian diffuse accumulation, or return the background color.
/// Shading never darkens below zero: a hit on a sphere whose color has
/// non-negative channels yields a color with non-negative channels.
pub fn cast_ray(orig: Vec3f, dir: Vec3f, spheres: &Vec<Sphere>, lights: &Vec<Light>) -> (r: Vec3f)
    requires
        spheres_wf(spheres@),
        lights_wf(lights@),
        lights@.len() <= crate::LIGHTS_MAX,
        in_range(orig, crate::COORD_MAX as int),
        in_range(dir, crate::SCALE as int),
    ensures
        r == cast_ray_spec(orig, dir, spheres@, lights@),
        any_hit(spheres@, orig, dir) && ({
            let c = spheres@[winner_of(spheres@, orig, dir)].material.diffuse_color;
            c.0 >= 0 && c.1 >= 0 && c.2 >= 0
        }) ==> r.0 >= 0 && r.1 >= 0 && r.2 >= 0,
{
    match scene_intersect(orig, dir, spheres) {
        None => background_color(),
        Some(rec) => {
            let mut sum: i128 = 0;
            let mut k: usize = 0;
            while k < lights.len()
                invariant
                    lights_wf(lights@),
                    lights@.len() <= crate::LIGHTS_MAX,
                    in_range(rec.hit, 0x8000_0000_0000),
                    in_range(rec.normal, crate::SCALE as int),
                    0 <= k <= lights@.len(),
                    sum == intensity_sum(lights@.take(k as int), rec.hit, rec.normal),
                    0 <= sum <= (k as int) * 0x300_0000_0000,
                decreases lights@.len() - k,
            {
                let lt = lights[k];
                assert(lights@[k as int].wf());
                let diff = lt.position.sub(rec.hit);
                if diff.0 != 0 || diff.1 != 0 || diff.2 != 0 {
                    let ldir = diff.normalize();
                    let cos = ldir.dot(rec.normal);
                    proof {
                        assert(diff == vsub_spec(lt.position, rec.hit));
                        lemma_dot_raw_bound(ldir, rec.normal, crate::SCALE as int, crate::SCALE as int);
                        lemma_divt_bound(
                            dot_raw(ldir, rec.normal),
                            crate::SCALE as int,
                            (3 * (0x1_0000 * 0x1_0000)) as int,
                        );
                    }
                    if cos > 0 {
                        let term = fxmul(lt.intensity, cos);
                        proof {
                            lemma_mul_bound(lt.intensity as int, cos as int, crate::COORD_MAX as int, 0x3_0000);
                            lemma_divt_bound(
                                lt.intensity as int * cos as int,
                                crate::SCALE as int,
                                (0x100_0000_0000 * 0x3_0000) as int,
                            );
                            vstd::arithmetic::mul::lemma_mul_nonnegative(
                                lt.intensity as int,
                                cos as int,
                            );
                            vstd::arithmetic::div_mod::lemma_div_pos_is_pos(
                                lt.intensity as int * cos as int,
                                crate::SCALE as int,
                            );
                            assert(light_term(lights@[k as int], rec.hit, rec.normal) == term);
                        }
                        sum = sum + term;
                    } else {
                        proof {
                            assert(lt.intensity as int * 0 == 0);
                            assert(light_term(lights@[k as int], rec.hit, rec.normal) == 0);
                        }
                    }
                } else {
                    proof {
                        assert(lt.position == rec.hit);
                        assert(light_term(lights@[k as int], rec.hit, rec.normal) == 0);
                    }
                }
                proof {
                    assert(lights@.take(k as int + 1).drop_last() =~= lights@.take(k as int));
                    assert(lights@.take(k as int + 1).last() == lights@[k as int]);
                }
                k = k + 1;
            }
            proof {
                assert(lights@.take(lights@.len() as int) =~= lights@);
                let w = winner_of(spheres@, orig, dir);
                assert(spheres@[w].wf());
                let c = rec.material.diffuse_color;
                if c.0 >= 0 {
                    vstd::arithmetic::mul::lemma_mul_nonnegative(c.0 as int, sum as int);
                    vstd::arithmetic::div_mod::lemma_div_pos_is_pos(c.0 as int * sum as int, crate::SCALE as int);
                }
                if c.1 >= 0 {
                    vstd::arithmetic::mul::lemma_mul_nonnegative(c.1 as int, sum as int);
                    vstd::arithmetic::div_mod::lemma_div_pos_is_pos(c.1 as int * sum as int, crate::SCALE as int);
                }
                if c.2 >= 0 {
                    vstd::arithmetic::mul::lemma_mul_nonnegative(c.2 as int, sum as int);
                    vstd::arithmetic::div_mod::lemma_div_pos_is_pos(c.2 as int * sum as int, crate::SCALE as int);
                }
            }
            rec.material.diffuse_color.scale(sum)
        },
    }
}

/// The summed diffuse intensity is never negative: every light term is a
/// product of a nonnegative intensity with a cosine clamped below at zero.
pub proof fn lemma_intensity_sum_nonneg(lights: Seq<Light>, hit: Vec3f, n: Vec3f)
    requires
        lights_wf(lights),
    ensures
        intensity_sum(lights, hit, n) >= 0,
    decreases lights.len(),
{
    if lights.len() > 0 {
        assert(lights_wf(lights.drop_last())) by {
            assert forall|i: int| 0 <= i < lights.drop_last().len() implies (#[trigger] lights.drop_last()[i]).wf() by {
                assert(lights.drop_last()[i] == lights[i]);
            }
        }
        lemma_intensity_sum_nonneg(lights.drop_last(), hit, n);
        let lt = lights.last();
        assert(lt.wf());
        if lt.position != hit {
            let ldir = unit_of(vsub_spec(lt.position, hit));
            let cos = divt(dot_raw(ldir, n), crate::SCALE as int);
            if cos >= 0 {
                vstd::arithmetic::mul::lemma_mul_nonnegative(lt.intensity as int, cos);
                vstd::arithmetic::div_mod::lemma_div_pos_is_pos(
                    lt.intensity as int * cos,
                    crate::SCALE as int,
                );
            }
        }
    }
}

/// When every light is behind the surface (or sits on the surface point),
/// the summed diffuse intensity is exactly zero.
pub proof fn lemma_lights_behind_sum_zero(lights: Seq<Light>, hit: Vec3f, n: Vec3f)
    requires
        forall|i: int|
            0 <= i < lights.len() ==> (#[trigger] lights[i]).position == hit || dot_raw(
                unit_of(vsub_spec(lights[i].position, hit)),
                n,
            ) <= 0,
    ensures
        intensity_sum(lights, hit, n) == 0,
    decreases lights.len(),
{
    if lights.len() > 0 {
        assert forall|i: int| 0 <= i < lights.drop_last().len() implies (
            #[trigger] lights.drop_last()[i]).position == hit || dot_raw(
            unit_of(vsub_spec(lights.drop_last()[i].position, hit)),
            n,
        ) <= 0 by {
            assert(lights.drop_last()[i] == lights[i]);
        }
        lemma_lights_behind_sum_zero(lights.drop_last(), hit, n);
        let lt = lights.last();
        assert(lt == lights[lights.len() - 1]);
        if lt.position != hit {
            let p = dot_raw(unit_of(vsub_spec(lt.position, hit)), n);
            assert(p <= 0);
            vstd::arithmetic::div_mod::lemma_div_pos_is_pos(-p, crate::SCALE as int);
            let cos = divt(p, crate::SCALE as int);
            assert(cos <= 0);
            assert(lt.intensity as int * 0 == 0);
            assert(light_term(lt, hit, n) == 0);
        } else {
            assert(light_term(lt, hit, n) == 0);
        }
    }
}

/// Shading a hit with every light behind the surface yields exact black:
/// the material color scaled by a zero intensity sum.
pub proof fn lemma_shade_black_when_lights_behind(
    o: Vec3f,
    d: Vec3f,
    spheres: Seq<Sphere>,
    lights: Seq<Light>,
)
    requires
        any_hit(spheres, o, d),
        forall|i: int|
            0 <= i < lights.len() ==> (#[trigger] lights[i]).position == hit_point(
                o,
                d,
                sphere_dist(spheres[winner_of(spheres, o, d)], o, d),
            ) || dot_raw(
                unit_of(vsub_spec(lights[i].position, hit_point(
                    o,
                    d,
                    sphere_dist(spheres[winner_of(spheres, o, d)], o, d),
                ))),
                normal_of(spheres[winner_of(spheres, o, d)], o, d),
            ) <= 0,
    ensures
        cast_ray_spec(o, d, spheres, lights) == Vec3f(0, 0, 0),
{
    let s = spheres[winner_of(spheres, o, d)];
    let hit = hit_point(o, d, sphere_dist(s, o, d));
    let n = normal_of(s, o, d);
    lemma_lights_behind_sum_zero(lights, hit, n);
    assert(fxm(s.material.diffuse_color.0 as int, 0) == 0);
    assert(fxm(s.material.diffuse_color.1 as int, 0) == 0);
    assert(fxm(s.material.diffuse_color.2 as int, 0) == 0);
}

/// A ray whose line passes outside every sphere's radius (the bounding
/// distance test `d2q > r2q` fails for no sphere) evaluates to the exact
/// background color.
pub proof fn lemma_all_outside_background(
    o: Vec3f,
    d: Vec3f,
    spheres: Seq<Sphere>,
    lights: Seq<Light>,
)
    requires
        forall|i: int|
            0 <= i < spheres.len() ==> sphere_d2q(#[trigger] spheres[i], o, d) > sphere_r2q(
                spheres[i],
            ),
    ensures
        cast_ray_spec(o, d, spheres, lights) == background(),
{
    assert(!any_hit(spheres, o, d));
}

/// With no spheres at all, every ray evaluates to the exact background
/// color, whatever the lights are.
pub proof fn lemma_empty_scene_background(
    o: Vec3f,
    d: Vec3f,
    spheres: Seq<Sphere>,
    lights: Seq<Light>,
)
    requires
        spheres.len() == 0,
    ensures
        cast_ray_spec(o, d, spheres, lights) == background(),
{
}

} // verus!
