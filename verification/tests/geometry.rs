use rt::aabb::{Aabb, Slab};
use rt::cylinder::Cylinder;
use rt::hittable::{HitRecord, Surface};
use rt::interval::Interval;
use rt::material::{Lambertian, Material, Metal};
use rt::quad::{cuboid, Plane};
use rt::ray::Ray;
use rt::scalar::Scalar;
use rt::sphere::Sphere;
use rt::vector3::{random_in_unit_sphere, random_on_hemisphere, Vector3};

fn g(x: f64) -> Scalar {
    Scalar::from_bits(x.to_bits())
}

fn gf(s: Scalar) -> f64 {
    f64::from_bits(s.to_bits())
}

fn gv(x: f64, y: f64, z: f64) -> Vector3 {
    Vector3::new(g(x), g(y), g(z))
}

fn gvf(v: Vector3) -> [f64; 3] {
    [gf(v.x()), gf(v.y()), gf(v.z())]
}

fn whole() -> Interval {
    Interval::new(g(0.001), g(f64::INFINITY))
}

/// The three slabs of a box for a ray, as the caller of the slab test
/// computes them.
fn slabs(b: &Aabb, origin: [f64; 3], dir: [f64; 3]) -> [Slab; 3] {
    let mut out = [Slab::new(g(0.0), g(0.0), g(0.0)); 3];
    for a in 0..3 {
        let side = b.axis(a as u8);
        let inv_d = 1.0 / dir[a];
        let t0 = (gf(side.min) - origin[a]) * inv_d;
        let t1 = (gf(side.max) - origin[a]) * inv_d;
        out[a] = Slab::new(g(t0), g(t1), g(inv_d));
    }
    out
}

fn box_hit(b: &Aabb, origin: [f64; 3], dir: [f64; 3], ray_t: Interval) -> bool {
    let s = slabs(b, origin, dir);
    Aabb::hit(s[0], s[1], s[2], ray_t)
}

/// The roots of the sphere quadratic and the library's choice among them.
fn sphere_t(centre: [f64; 3], radius: f64, origin: [f64; 3], dir: [f64; 3], ray_t: Interval) -> Option<f64> {
    let oc = [origin[0] - centre[0], origin[1] - centre[1], origin[2] - centre[2]];
    let a = dir[0] * dir[0] + dir[1] * dir[1] + dir[2] * dir[2];
    let half_b = oc[0] * dir[0] + oc[1] * dir[1] + oc[2] * dir[2];
    let c = oc[0] * oc[0] + oc[1] * oc[1] + oc[2] * oc[2] - radius * radius;
    let discriminant = half_b * half_b - a * c;
    let sqrtd = discriminant.sqrt();
    let near = (-half_b - sqrtd) / a;
    let far = (-half_b + sqrtd) / a;
    Sphere::nearest_root(g(discriminant), g(near), g(far), ray_t).map(gf)
}

#[test]
fn box_from_points_takes_corners_in_any_order() {
    let b = Aabb::from_points(gv(3.0, -1.0, 5.0), gv(-2.0, 4.0, 5.0));
    assert_eq!((gf(b.x.min), gf(b.x.max)), (-2.0, 3.0));
    assert_eq!((gf(b.y.min), gf(b.y.max)), (-1.0, 4.0));
    assert_eq!((gf(b.z.min), gf(b.z.max)), (5.0, 5.0));
    assert_eq!(b, Aabb::from_points(gv(-2.0, 4.0, 5.0), gv(3.0, -1.0, 5.0)));
}

#[test]
fn box_union_is_the_hull_per_axis() {
    let a = Aabb::from_points(gv(0.0, 0.0, 0.0), gv(1.0, 1.0, 1.0));
    let b = Aabb::from_points(gv(-1.0, 0.5, 2.0), gv(0.5, 3.0, 4.0));
    let u = Aabb::from_boxes(a, b);
    assert_eq!(u, Aabb::from_points(gv(-1.0, 0.0, 0.0), gv(1.0, 3.0, 4.0)));
    assert_eq!(Aabb::from_boxes(Aabb::default(), a), a);
    assert_eq!(Aabb::from_boxes(a, Aabb::default()), a);
}

#[test]
fn box_axis_picks_the_interval() {
    let b = Aabb::new(
        Interval::new(g(1.0), g(2.0)),
        Interval::new(g(3.0), g(4.0)),
        Interval::new(g(5.0), g(6.0)),
    );
    assert_eq!(b.axis(0), b.x);
    assert_eq!(b.axis(1), b.y);
    assert_eq!(b.axis(2), b.z);
    assert_eq!(b.axis(7), b.x);
}

#[test]
fn box_pad_widens_only_thin_sides() {
    let b = Aabb::from_points(gv(0.0, 0.0, 0.0), gv(1.0, 0.0, 0.00005));
    let delta = 0.0001;
    let widened = Aabb::new(
        Interval::new(g(0.0 - delta / 2.0), g(1.0 + delta / 2.0)),
        Interval::new(g(0.0 - delta / 2.0), g(0.0 + delta / 2.0)),
        Interval::new(g(0.0 - delta / 2.0), g(0.00005 + delta / 2.0)),
    );
    let padded = b.pad(gv(1.0, 0.0, 0.00005), &widened);
    assert_eq!(padded.x, b.x);
    assert_eq!(padded.y, widened.y);
    assert_eq!(padded.z, widened.z);
    let exact = b.pad(gv(0.0001, 0.0001, 0.0001), &widened);
    assert_eq!(exact, b);
}

#[test]
fn slab_test_follows_the_geometry() {
    let b = Aabb::from_points(gv(-1.0, -1.0, -1.0), gv(1.0, 1.0, 1.0));
    // straight through the middle
    assert!(box_hit(&b, [0.0, 0.0, -5.0], [0.0, 0.0, 1.0], whole()));
    // the same line, walked away from the box
    assert!(!box_hit(&b, [0.0, 0.0, -5.0], [0.0, 0.0, -1.0], whole()));
    // from the other side, against every axis
    assert!(box_hit(&b, [5.0, 5.0, 5.0], [-1.0, -1.0, -1.0], whole()));
    // passing beside the box
    assert!(!box_hit(&b, [3.0, 0.0, -5.0], [0.0, 0.0, 1.0], whole()));
    assert!(!box_hit(&b, [0.0, 2.5, -5.0], [0.1, 0.0, 1.0], whole()));
    // starting inside
    assert!(box_hit(&b, [0.0, 0.0, 0.0], [0.3, -0.2, 0.9], whole()));
    // a diagonal that clips a corner region
    assert!(box_hit(&b, [-3.0, 0.0, 0.0], [1.0, 0.2, 0.1], whole()));
    assert!(!box_hit(&b, [-3.0, 0.0, 0.0], [1.0, 0.9, 0.0], whole()));
}

#[test]
fn slab_test_respects_the_interval() {
    let b = Aabb::from_points(gv(-1.0, -1.0, -1.0), gv(1.0, 1.0, 1.0));
    // the box lies between t = 4 and t = 6
    let o = [0.0, 0.0, -5.0];
    let d = [0.0, 0.0, 1.0];
    assert!(box_hit(&b, o, d, Interval::new(g(0.0), g(4.5))));
    assert!(box_hit(&b, o, d, Interval::new(g(5.5), g(100.0))));
    assert!(!box_hit(&b, o, d, Interval::new(g(0.0), g(4.0))));
    assert!(!box_hit(&b, o, d, Interval::new(g(6.0), g(100.0))));
    assert!(!box_hit(&b, o, d, Interval::new(g(0.0), g(3.0))));
}

#[test]
fn slab_test_with_rays_parallel_to_an_axis() {
    let b = Aabb::from_points(gv(-1.0, -1.0, -1.0), gv(1.0, 1.0, 1.0));
    // parallel to x and y, inside both slabs
    assert!(box_hit(&b, [0.5, -0.5, -5.0], [0.0, 0.0, 1.0], whole()));
    // parallel to x, outside the x slab
    assert!(!box_hit(&b, [1.5, 0.0, -5.0], [0.0, 0.0, 1.0], whole()));
    // a direction component of negative zero
    assert!(box_hit(&b, [0.5, -0.5, -5.0], [-0.0, 0.0, 1.0], whole()));
    assert!(!box_hit(&b, [-1.5, 0.0, -5.0], [-0.0, 0.0, 1.0], whole()));
    // running inside a bounding plane: the crossings are no numbers
    let s = slabs(&b, [1.0, 0.0, -5.0], [0.0, 0.0, 1.0]);
    assert!(gf(s[0].t1).is_nan());
    assert!(Aabb::hit(s[0], s[1], s[2], whole()));
}

#[test]
fn sphere_ray_through_the_centre_enters_at_distance_minus_radius() {
    let cases = [
        ([0.0, 0.0, -1.0], 0.5, [0.0, 0.0, 0.0], [0.0, 0.0, -1.0]),
        ([0.0, 0.0, -1.0], 0.5, [0.0, 0.0, 3.0], [0.0, 0.0, -1.0]),
        ([2.0, 0.0, 0.0], 1.0, [-2.0, 0.0, 0.0], [1.0, 0.0, 0.0]),
        ([0.0, -100.5, -1.0], 100.0, [0.0, 1.0, -1.0], [0.0, -1.0, 0.0]),
    ];
    for (centre, radius, origin, dir) in cases {
        let distance = ((centre[0] - origin[0] as f64).powi(2)
            + (centre[1] - origin[1] as f64).powi(2)
            + (centre[2] - origin[2] as f64).powi(2))
        .sqrt();
        let t = sphere_t(centre, radius, origin, dir, whole()).unwrap();
        assert!((t - (distance - radius)).abs() < 1e-12, "{t} vs {}", distance - radius);
        // the outward normal at the entry is antiparallel to the direction
        let p = [origin[0] + t * dir[0], origin[1] + t * dir[1], origin[2] + t * dir[2]];
        let n = [(p[0] - centre[0]) / radius, (p[1] - centre[1]) / radius, (p[2] - centre[2]) / radius];
        let facing = n[0] * dir[0] + n[1] * dir[1] + n[2] * dir[2];
        assert!((facing + 1.0).abs() < 1e-9);
        let mut rec = HitRecord::default();
        rec.set_face_normal(g(facing), &gv(n[0], n[1], n[2]));
        assert!(rec.front_face);
        assert_eq!(gvf(rec.normal), n);
        let len = (n[0] * n[0] + n[1] * n[1] + n[2] * n[2]).sqrt();
        assert!((len - 1.0).abs() < 1e-9);
    }
}

#[test]
fn sphere_from_inside_takes_the_far_root() {
    let t = sphere_t([0.0, 0.0, 0.0], 2.0, [0.0, 0.0, 0.0], [0.0, 0.0, 1.0], whole()).unwrap();
    assert_eq!(t, 2.0);
}

#[test]
fn sphere_miss_and_out_of_interval() {
    assert_eq!(sphere_t([0.0, 0.0, -1.0], 0.5, [0.0, 2.0, 0.0], [0.0, 0.0, -1.0], whole()), None);
    // both roots behind the ray
    assert_eq!(sphere_t([0.0, 0.0, 5.0], 0.5, [0.0, 0.0, 0.0], [0.0, 0.0, -1.0], whole()), None);
    // both roots beyond the interval's end
    let short = Interval::new(g(0.001), g(0.25));
    assert_eq!(sphere_t([0.0, 0.0, -1.0], 0.5, [0.0, 0.0, 0.0], [0.0, 0.0, -1.0], short), None);
    // the interval is open: a root at its end does not count
    let to_entry = Interval::new(g(0.001), g(0.5));
    assert_eq!(sphere_t([0.0, 0.0, -1.0], 0.5, [0.0, 0.0, 0.0], [0.0, 0.0, -1.0], to_entry), None);
    // the near root cut off, the far one taken
    let from_middle = Interval::new(g(1.0), g(10.0));
    assert_eq!(
        sphere_t([0.0, 0.0, -1.0], 0.5, [0.0, 0.0, 0.0], [0.0, 0.0, -1.0], from_middle),
        Some(1.5)
    );
}

#[test]
fn sphere_root_choice_on_plain_values() {
    let i = Interval::new(g(0.0), g(10.0));
    assert_eq!(Sphere::nearest_root(g(-1.0), g(1.0), g(2.0), i), None);
    assert_eq!(Sphere::nearest_root(g(0.0), g(1.0), g(1.0), i).map(gf), Some(1.0));
    assert_eq!(Sphere::nearest_root(g(4.0), g(-1.0), g(2.0), i).map(gf), Some(2.0));
    assert_eq!(Sphere::nearest_root(g(4.0), g(-3.0), g(-1.0), i), None);
    assert_eq!(Sphere::nearest_root(g(f64::NAN), g(f64::NAN), g(f64::NAN), i), None);
    let s = Sphere::new(gv(1.0, 2.0, 3.0), g(0.5), 4);
    assert_eq!((gvf(s.centre), gf(s.radius), s.mat), ([1.0, 2.0, 3.0], 0.5, 4));
}

#[test]
fn face_normal_is_turned_against_the_ray() {
    let n = gv(0.0, 1.0, 0.0);
    let mut rec = HitRecord::default();
    rec.set_face_normal(g(-0.3), &n);
    assert!(rec.front_face);
    assert_eq!(gvf(rec.normal), [0.0, 1.0, 0.0]);
    rec.set_face_normal(g(0.3), &n);
    assert!(!rec.front_face);
    assert_eq!(gvf(rec.normal), [-0.0, -1.0, -0.0]);
    rec.set_face_normal(g(0.0), &n);
    assert!(!rec.front_face);
    let d = HitRecord::default();
    assert_eq!((d.mat, d.t.to_bits(), d.u.to_bits(), d.v.to_bits(), d.front_face), (0, 0, 0, 0, false));
}

/// The plane quantities for a ray against the parallelogram, as the
/// caller of `Plane::hit` computes them.
fn plane_hit(plane: &Plane, origin: [f64; 3], dir: [f64; 3], ray_t: Interval) -> Option<HitRecord> {
    let q = gvf(plane.q);
    let u = gvf(plane.u);
    let v = gvf(plane.v);
    let cross = |a: [f64; 3], b: [f64; 3]| {
        [a[1] * b[2] - a[2] * b[1], a[2] * b[0] - a[0] * b[2], a[0] * b[1] - a[1] * b[0]]
    };
    let dot = |a: [f64; 3], b: [f64; 3]| a[0] * b[0] + a[1] * b[1] + a[2] * b[2];
    let n = cross(u, v);
    let len = dot(n, n).sqrt();
    let normal = [n[0] / len, n[1] / len, n[2] / len];
    let d = dot(normal, q);
    let w = [n[0] / dot(n, n), n[1] / dot(n, n), n[2] / dot(n, n)];
    let denom = dot(normal, dir);
    let t = (d - dot(normal, origin)) / denom;
    let p = [origin[0] + t * dir[0], origin[1] + t * dir[1], origin[2] + t * dir[2]];
    let h = [p[0] - q[0], p[1] - q[1], p[2] - q[2]];
    let alpha = dot(w, cross(h, v));
    let beta = dot(w, cross(u, h));
    let mut rec = HitRecord::default();
    let before = rec;
    let hit = plane.hit(
        g(denom),
        g(t),
        gv(p[0], p[1], p[2]),
        g(alpha),
        g(beta),
        &gv(normal[0], normal[1], normal[2]),
        ray_t,
        &mut rec,
    );
    if hit {
        Some(rec)
    } else {
        assert_eq!(rec, before);
        None
    }
}

#[test]
fn plane_hit_inside_the_parallelogram() {
    let floor = Plane::new(gv(-6.0, -0.5, -6.0), gv(12.0, 0.0, 0.0), gv(0.0, 0.0, 12.0), 3);
    let rec = plane_hit(&floor, [0.0, 1.0, 0.0], [0.0, -1.0, 0.0], whole()).unwrap();
    assert_eq!(gf(rec.t), 1.5);
    assert_eq!(gvf(rec.p), [0.0, -0.5, 0.0]);
    assert_eq!((gf(rec.u), gf(rec.v)), (0.5, 0.5));
    assert_eq!(rec.mat, 3);
    // u x v points down, the ray runs along it: the back face is hit
    assert!(!rec.front_face);
    assert_eq!(gvf(rec.normal), [-0.0, 1.0, -0.0]);
    let from_below = plane_hit(&floor, [3.0, -2.0, -3.0], [0.0, 1.0, 0.0], whole()).unwrap();
    assert!(from_below.front_face);
    assert_eq!(gvf(from_below.normal), [0.0, -1.0, 0.0]);
    assert_eq!((gf(from_below.u), gf(from_below.v)), (0.75, 0.25));
}

#[test]
fn plane_rejects_parallel_outside_and_out_of_interval() {
    let floor = Plane::new(gv(-6.0, -0.5, -6.0), gv(12.0, 0.0, 0.0), gv(0.0, 0.0, 12.0), 0);
    assert!(plane_hit(&floor, [0.0, 1.0, 0.0], [1.0, 0.0, 0.0], whole()).is_none());
    assert!(plane_hit(&floor, [0.0, 1.0, 0.0], [1.0, -1e-9, 0.0], whole()).is_none());
    assert!(plane_hit(&floor, [7.0, 1.0, 0.0], [0.0, -1.0, 0.0], whole()).is_none());
    assert!(plane_hit(&floor, [0.0, 1.0, -6.5], [0.0, -1.0, 0.0], whole()).is_none());
    assert!(plane_hit(&floor, [0.0, -1.0, 0.0], [0.0, -1.0, 0.0], whole()).is_none());
    // the interval is closed: a hit at its end counts
    assert!(plane_hit(&floor, [0.0, 1.0, 0.0], [0.0, -1.0, 0.0], Interval::new(g(0.0), g(1.5))).is_some());
    assert!(plane_hit(&floor, [0.0, 1.0, 0.0], [0.0, -1.0, 0.0], Interval::new(g(0.0), g(1.4))).is_none());
    // the edge of the parallelogram belongs to it
    assert!(plane_hit(&floor, [6.0, 1.0, 6.0], [0.0, -1.0, 0.0], whole()).is_some());
}

#[test]
fn plane_interior_test_sets_the_surface_coordinates() {
    let mut rec = HitRecord::default();
    assert!(Plane::is_interior(g(0.25), g(1.0), &mut rec));
    assert_eq!((gf(rec.u), gf(rec.v)), (0.25, 1.0));
    let kept = rec;
    assert!(!Plane::is_interior(g(-0.01), g(0.5), &mut rec));
    assert!(!Plane::is_interior(g(0.5), g(1.01), &mut rec));
    assert!(!Plane::is_interior(g(1.5), g(0.5), &mut rec));
    assert!(!Plane::is_interior(g(0.5), g(-0.5), &mut rec));
    assert!(!Plane::is_interior(g(f64::NAN), g(0.5), &mut rec));
    assert!(!Plane::is_interior(g(0.5), g(f64::NAN), &mut rec));
    assert_eq!(rec, kept);
    assert!(Plane::is_interior(g(0.0), g(-0.0), &mut rec));
}

/// The lateral quadratic of a vertical cylinder and the library's choice
/// among its roots.
fn cylinder_t(
    centre: [f64; 3],
    radius: f64,
    height: f64,
    origin: [f64; 3],
    dir: [f64; 3],
    ray_t: Interval,
) -> Option<f64> {
    let oc = [origin[0] - centre[0], origin[1] - centre[1], origin[2] - centre[2]];
    let a = dir[0] * dir[0] + dir[2] * dir[2];
    let b = 2.0 * (oc[0] * dir[0] + oc[2] * dir[2]);
    let c = oc[0] * oc[0] + oc[2] * oc[2] - radius * radius;
    let discriminant = b * b - 4.0 * a * c;
    let sqrt_d = discriminant.sqrt();
    let first = (-b - sqrt_d) / (2.0 * a);
    let second = (-b + sqrt_d) / (2.0 * a);
    let rise = |t: f64| origin[1] + t * dir[1] - centre[1];
    Cylinder::nearest_root(
        g(discriminant),
        g(first),
        g(rise(first)),
        g(second),
        g(rise(second)),
        g(height / 2.0),
        ray_t,
    )
    .map(gf)
}

#[test]
fn cylinder_hits_its_side_between_the_ends() {
    let c = [0.0, 0.5, 0.0];
    assert_eq!(cylinder_t(c, 0.5, 1.0, [-2.0, 0.5, 0.0], [1.0, 0.0, 0.0], whole()), Some(1.5));
    // from inside: the far wall
    assert_eq!(cylinder_t(c, 0.5, 1.0, [0.0, 0.5, 0.0], [1.0, 0.0, 0.0], whole()), Some(0.5));
    // above the upper end
    assert_eq!(cylinder_t(c, 0.5, 1.0, [-2.0, 1.5, 0.0], [1.0, 0.0, 0.0], whole()), None);
    // exactly at the end's height: the range is open
    assert_eq!(cylinder_t(c, 0.5, 1.0, [-2.0, 1.0, 0.0], [1.0, 0.0, 0.0], whole()), None);
    // beside the cylinder
    assert_eq!(cylinder_t(c, 0.5, 1.0, [-2.0, 0.5, 2.0], [1.0, 0.0, 0.0], whole()), None);
    // touching it: the discriminant is zero, which is no hit
    assert_eq!(cylinder_t(c, 0.5, 1.0, [-2.0, 0.5, 0.5], [1.0, 0.0, 0.0], whole()), None);
}

#[test]
fn cylinder_is_open_at_its_ends() {
    let c = [0.0, 0.0, 0.0];
    // coming down through the open top and leaving through the wall
    let t = cylinder_t(c, 1.0, 2.0, [0.0, 3.0, 0.0], [0.25, -1.0, 0.0], whole());
    // the near root lies above the top, the far root at x = 1 lies at y = -1: on the rim, which is out
    assert_eq!(t, None);
    let t = cylinder_t(c, 1.0, 2.0, [0.0, 2.0, 0.0], [0.5, -1.0, 0.0], whole()).unwrap();
    assert_eq!(t, 2.0);
    // straight down the axis: nothing is hit
    assert_eq!(cylinder_t(c, 1.0, 2.0, [0.0, 3.0, 0.0], [0.0, -1.0, 0.0], whole()), None);
}

#[test]
fn cylinder_root_choice_on_plain_values() {
    let i = Interval::new(g(0.0), g(10.0));
    let hh = g(1.0);
    // both on the surface: the smaller, in either order
    assert_eq!(Cylinder::nearest_root(g(1.0), g(2.0), g(0.0), g(3.0), g(0.0), hh, i).map(gf), Some(2.0));
    assert_eq!(Cylinder::nearest_root(g(1.0), g(3.0), g(0.0), g(2.0), g(0.0), hh, i).map(gf), Some(2.0));
    // the first too high
    assert_eq!(Cylinder::nearest_root(g(1.0), g(2.0), g(1.5), g(3.0), g(0.5), hh, i).map(gf), Some(3.0));
    // the second out of the interval
    assert_eq!(Cylinder::nearest_root(g(1.0), g(2.0), g(-0.5), g(30.0), g(0.5), hh, i).map(gf), Some(2.0));
    // none
    assert_eq!(Cylinder::nearest_root(g(1.0), g(-2.0), g(0.0), g(30.0), g(0.0), hh, i), None);
    assert_eq!(Cylinder::nearest_root(g(0.0), g(2.0), g(0.0), g(3.0), g(0.0), hh, i), None);
    assert_eq!(Cylinder::nearest_root(g(-4.0), g(2.0), g(0.0), g(3.0), g(0.0), hh, i), None);
    let c = Cylinder::new(gv(0.0, 0.5, 0.0), g(0.6), g(1.0), 2);
    assert_eq!((gvf(c.center), gf(c.radius), gf(c.height), c.m), ([0.0, 0.5, 0.0], 0.6, 1.0, 2));
}

#[test]
fn cylinder_cap_normal_by_side() {
    assert_eq!(gvf(Cylinder::calculate_outward_normal(g(0.25))), [0.0, 1.0, 0.0]);
    assert_eq!(gvf(Cylinder::calculate_outward_normal(g(-0.25))), [0.0, -1.0, 0.0]);
    assert_eq!(gvf(Cylinder::calculate_outward_normal(g(0.0))), [0.0, 0.0, 0.0]);
}

#[test]
fn cuboid_has_six_sides_in_order() {
    let a = [1.0, 0.5, 1.0];
    let b = [-1.0, -0.5, -1.0];
    let extent = gv((a[0] - b[0] as f64).abs(), (a[1] - b[1] as f64).abs(), (a[2] - b[2] as f64).abs());
    let sides = cuboid(gv(a[0], a[1], a[2]), gv(b[0], b[1], b[2]), extent, 5);
    assert_eq!(sides.len(), 6);
    let expect: [([f64; 3], [f64; 3], [f64; 3]); 6] = [
        ([-1.0, -0.5, 1.0], [2.0, 0.0, 0.0], [0.0, 1.0, 0.0]),
        ([1.0, -0.5, 1.0], [-0.0, -0.0, -2.0], [0.0, 1.0, 0.0]),
        ([1.0, -0.5, -1.0], [-2.0, -0.0, -0.0], [0.0, 1.0, 0.0]),
        ([-1.0, -0.5, -1.0], [0.0, 0.0, 2.0], [0.0, 1.0, 0.0]),
        ([-1.0, 0.5, 1.0], [2.0, 0.0, 0.0], [-0.0, -0.0, -2.0]),
        ([-1.0, -0.5, -1.0], [2.0, 0.0, 0.0], [0.0, 0.0, 2.0]),
    ];
    for (side, (q, u, v)) in sides.iter().zip(expect.iter()) {
        assert_eq!(gvf(side.q), *q);
        assert_eq!(gvf(side.u), *u);
        assert_eq!(gvf(side.v), *v);
        assert_eq!(side.mat, 5);
    }
    // every side is hit from outside by a ray towards the centre
    let outside = [[0.0, 0.0, 5.0], [5.0, 0.0, 0.0], [0.0, 0.0, -5.0], [-5.0, 0.0, 0.0], [0.0, 5.0, 0.0], [0.0, -5.0, 0.0]];
    for (k, o) in outside.iter().enumerate() {
        let dir = [-o[0], -o[1], -o[2]];
        for (j, side) in sides.iter().enumerate() {
            let hit = plane_hit(side, *o, dir, Interval::new(g(0.001), g(0.95)));
            assert_eq!(hit.is_some(), j == k, "ray {k} against side {j}");
        }
    }
}

#[test]
fn lambertian_scatters_along_the_candidate_or_the_normal() {
    let mut rec = HitRecord::default();
    rec.p = gv(1.0, 2.0, 3.0);
    rec.normal = gv(0.0, 1.0, 0.0);
    let m = Lambertian::new(gv(0.8, 0.3, 0.3));
    let (attenuation, ray) = m.scatter(&rec, gv(0.3, 1.2, -0.1)).unwrap();
    assert_eq!(gvf(attenuation), [0.8, 0.3, 0.3]);
    assert_eq!(gvf(ray.origin()), [1.0, 2.0, 3.0]);
    assert_eq!(gvf(ray.direction()), [0.3, 1.2, -0.1]);
    let (_, fallback) = m.scatter(&rec, gv(1e-9, -1e-9, 0.0)).unwrap();
    assert_eq!(gvf(fallback.direction()), [0.0, 1.0, 0.0]);
    let general = Material::Lambertian(m);
    assert_eq!(general.scatter(&rec, gv(1e-9, -1e-9, 0.0)), Some((gv(0.8, 0.3, 0.3), fallback)));
}

#[test]
fn metal_scatters_along_the_reflection() {
    let mut rec = HitRecord::default();
    rec.p = gv(1.0, 2.0, 3.0);
    rec.normal = gv(0.0, 1.0, 0.0);
    let m = Metal::new(gv(0.9, 0.9, 0.9));
    let (attenuation, ray) = m.scatter(&rec, gv(1e-9, 0.0, 0.0)).unwrap();
    assert_eq!(gvf(attenuation), [0.9, 0.9, 0.9]);
    assert_eq!(ray, Ray::new(gv(1.0, 2.0, 3.0), gv(1e-9, 0.0, 0.0)));
    assert_eq!(Material::Metal(m).scatter(&rec, gv(0.5, 0.5, 0.0)).unwrap().1.direction(), gv(0.5, 0.5, 0.0));
}

#[test]
fn rejection_sampling_keeps_points_inside_the_sphere() {
    let p = gv(0.5, 0.5, 0.5);
    assert_eq!(random_in_unit_sphere(p, g(0.75)), Some(p));
    assert_eq!(random_in_unit_sphere(p, g(1.0)), None);
    assert_eq!(random_in_unit_sphere(p, g(2.5)), None);
    assert_eq!(random_in_unit_sphere(p, g(f64::NAN)), None);
}

#[test]
fn hemisphere_sample_is_turned_towards_the_normal() {
    let v = gv(0.6, 0.0, 0.8);
    assert_eq!(random_on_hemisphere(v, g(0.2)), v);
    assert_eq!(random_on_hemisphere(v, g(-0.2)), v.neg());
    assert_eq!(random_on_hemisphere(v, g(0.0)), v.neg());
}

/// A small generator of numbers in [0, 1).
fn next_unit(state: &mut u64) -> f64 {
    *state = state.wrapping_mul(6364136223846793005).wrapping_add(1442695040888963407);
    ((*state >> 11) as f64) / ((1u64 << 53) as f64)
}

fn widened(b: &Aabb, by: f64) -> Aabb {
    let side = |i: Interval| Interval::new(g(gf(i.min) - by), g(gf(i.max) + by));
    Aabb::new(side(b.x), side(b.y), side(b.z))
}

/// The bounding box of a parallelogram, as its owner computes it.
fn quad_bounds(quad: &Plane) -> Aabb {
    let (q, u, v) = (gvf(quad.q), gvf(quad.u), gvf(quad.v));
    let qu = gv(q[0] + u[0], q[1] + u[1], q[2] + u[2]);
    let qv = gv(q[0] + v[0], q[1] + v[1], q[2] + v[2]);
    let quv = gv(q[0] + u[0] + v[0], q[1] + u[1] + v[1], q[2] + u[2] + v[2]);
    let around = Aabb::from_corners(quad.q, qu, qv, quv);
    let size = |i: Interval| gf(i.max) - gf(i.min);
    let sizes = gv(size(around.x), size(around.y), size(around.z));
    quad.bounding_box(qu, qv, quv, sizes, &widened(&around, 0.00005))
}

fn holds(b: &Aabb, p: [f64; 3]) -> bool {
    b.x.contains(g(p[0])) && b.y.contains(g(p[1])) && b.z.contains(g(p[2]))
}

#[test]
fn bounding_boxes_hold_every_hit_point() {
    let mut state = 11u64;
    let centre = [0.5, -1.0, 2.0];
    let radius = 1.5;
    let ball_box = Aabb::from_points(
        gv(centre[0] - radius, centre[1] - radius, centre[2] - radius),
        gv(centre[0] + radius, centre[1] + radius, centre[2] + radius),
    );
    let ball_box = Sphere::new(gv(centre[0], centre[1], centre[2]), g(radius), 0).bounding_box(
        gv(centre[0] - radius, centre[1] - radius, centre[2] - radius),
        gv(centre[0] + radius, centre[1] + radius, centre[2] + radius),
    );
    // a slanted parallelogram: two of its corners lie outside the box of the other two
    let quad = Plane::new(gv(-1.0, 0.0, -1.0), gv(2.0, 0.5, 0.0), gv(-1.5, 0.5, 2.0), 0);
    let quad_box = quad_bounds(&quad);
    let tube = [0.0, 0.5, 0.0];
    let tube_box = Cylinder::new(gv(0.0, 0.5, 0.0), g(0.6), g(1.0), 0)
        .bounding_box(gv(-0.6, 0.0, -0.6), gv(0.6, 1.0, 0.6));
    let mut hits = [0; 3];
    for _ in 0..20000 {
        let mut draw = || 8.0 * next_unit(&mut state) - 4.0;
        let origin = [draw(), draw(), draw()];
        let dir = [draw(), draw(), draw()];
        if let Some(t) = sphere_t(centre, radius, origin, dir, whole()) {
            let p = [origin[0] + t * dir[0], origin[1] + t * dir[1], origin[2] + t * dir[2]];
            assert!(holds(&widened(&ball_box, 1e-9), p), "{p:?}");
            hits[0] += 1;
        }
        if let Some(rec) = plane_hit(&quad, origin, dir, whole()) {
            assert!(holds(&widened(&quad_box, 1e-9), gvf(rec.p)), "{:?}", gvf(rec.p));
            hits[1] += 1;
        }
        if let Some(t) = cylinder_t(tube, 0.6, 1.0, origin, dir, whole()) {
            let p = [origin[0] + t * dir[0], origin[1] + t * dir[1], origin[2] + t * dir[2]];
            assert!(holds(&widened(&tube_box, 1e-9), p), "{p:?}");
            hits[2] += 1;
        }
    }
    assert!(hits.iter().all(|n| *n > 100), "{hits:?}");
}

#[test]
fn sphere_hit_makes_the_record_at_the_accepted_root() {
    let ball = Sphere::new(gv(0.0, 0.0, -1.0), g(0.5), 7);
    let calls = std::cell::Cell::new(0);
    let surface = |t: Scalar| {
        calls.set(calls.get() + 1);
        Surface {
            p: gv(0.0, 0.0, -gf(t)),
            outward_normal: gv(0.0, 0.0, 1.0),
            facing: g(-1.0),
            u: g(0.25),
            v: g(0.5),
        }
    };
    let rec = ball.hit(g(0.25), g(0.5), g(1.5), whole(), &surface).unwrap();
    assert_eq!(calls.get(), 1);
    assert_eq!(gf(rec.t), 0.5);
    assert_eq!(gvf(rec.p), [0.0, 0.0, -0.5]);
    assert_eq!(gvf(rec.normal), [0.0, 0.0, 1.0]);
    assert!(rec.front_face);
    assert_eq!((gf(rec.u), gf(rec.v), rec.mat), (0.25, 0.5, 7));
    assert_eq!(ball.hit(g(-0.25), g(0.5), g(1.5), whole(), &surface), None);
    assert_eq!(ball.hit(g(0.25), g(-1.5), g(-0.5), whole(), &surface), None);
    assert_eq!(calls.get(), 1);
    // from inside: the far root, and the stored normal turned round
    let inside = |t: Scalar| Surface {
        p: gv(0.0, 0.0, -gf(t)),
        outward_normal: gv(0.0, 0.0, -1.0),
        facing: g(1.0),
        u: g(0.0),
        v: g(0.0),
    };
    let rec = ball.hit(g(0.25), g(-0.5), g(0.5), whole(), inside).unwrap();
    assert_eq!(gf(rec.t), 0.5);
    assert!(!rec.front_face);
    assert_eq!(gvf(rec.normal), [-0.0, -0.0, 1.0]);
    assert_eq!(rec, HitRecord::new(g(0.5), &inside(g(0.5)), 7));
}

#[test]
fn cylinder_hit_makes_the_record_at_the_accepted_root() {
    let tube = Cylinder::new(gv(0.0, 0.5, 0.0), g(0.5), g(1.0), 4);
    let surface = |t: Scalar| Surface {
        p: gv(gf(t) - 2.0, 0.5, 0.0),
        outward_normal: gv(-1.0, 0.0, 0.0),
        facing: g(-1.0),
        u: g(0.0),
        v: g(0.0),
    };
    let rec = tube.hit(g(1.0), g(1.5), g(0.0), g(2.5), g(0.0), g(0.5), whole(), surface).unwrap();
    assert_eq!(gf(rec.t), 1.5);
    assert_eq!(gvf(rec.p), [-0.5, 0.5, 0.0]);
    assert_eq!(gvf(rec.normal), [-1.0, 0.0, 0.0]);
    assert!(rec.front_face);
    assert_eq!(rec.mat, 4);
    assert_eq!(tube.hit(g(1.0), g(1.5), g(0.75), g(2.5), g(-0.75), g(0.5), whole(), surface), None);
    assert_eq!(tube.hit(g(0.0), g(1.5), g(0.0), g(2.5), g(0.0), g(0.5), whole(), surface), None);
}

#[test]
fn box_around_four_corners_holds_them_all() {
    // q = (0,0,0), u = (1,0,0), v = (-1,1,0)
    let (q, qu, qv, quv) = (gv(0.0, 0.0, 0.0), gv(1.0, 0.0, 0.0), gv(-1.0, 1.0, 0.0), gv(0.0, 1.0, 0.0));
    let b = Aabb::from_corners(q, qu, qv, quv);
    assert_eq!((gf(b.x.min), gf(b.x.max)), (-1.0, 1.0));
    assert_eq!((gf(b.y.min), gf(b.y.max)), (0.0, 1.0));
    assert_eq!((gf(b.z.min), gf(b.z.max)), (0.0, 0.0));
    for corner in [q, qu, qv, quv] {
        assert!(holds(&b, gvf(corner)));
    }
    assert_eq!(b, Aabb::from_boxes(Aabb::from_points(q, quv), Aabb::from_points(qu, qv)));
    // the two opposite corners alone would leave the others out
    assert!(!holds(&Aabb::from_points(q, quv), gvf(qu)));
    assert!(!holds(&Aabb::from_points(q, quv), gvf(qv)));
}

#[test]
fn primitives_have_their_bounding_boxes() {
    let ball = Sphere::new(gv(1.0, 2.0, 3.0), g(0.5), 0);
    let b = ball.bounding_box(gv(0.5, 1.5, 2.5), gv(1.5, 2.5, 3.5));
    assert_eq!(b, Aabb::from_points(gv(1.5, 2.5, 3.5), gv(0.5, 1.5, 2.5)));
    let tube = Cylinder::new(gv(0.0, 0.5, 0.0), g(0.6), g(1.0), 0);
    let b = tube.bounding_box(gv(-0.6, 0.0, -0.6), gv(0.6, 1.0, 0.6));
    assert_eq!((gf(b.y.min), gf(b.y.max)), (0.0, 1.0));
    // a flat parallelogram gets a box with some thickness
    let floor = Plane::new(gv(0.0, 0.0, 0.0), gv(1.0, 0.0, 0.0), gv(-1.0, 0.0, 1.0), 0);
    let b = quad_bounds(&floor);
    assert_eq!((gf(b.x.min), gf(b.x.max)), (-1.0, 1.0));
    assert_eq!((gf(b.y.min), gf(b.y.max)), (-0.00005, 0.00005));
    assert_eq!((gf(b.z.min), gf(b.z.max)), (0.0, 1.0));
}
