//! How a surface scatters the ray that hit it.

use vstd::prelude::*;
use crate::hittable::HitRecord;
use crate::ray::Ray;
use crate::vector3::Vector3;

verus! {

pub type Colour = Vector3;

/// A diffuse surface.
#[derive(Clone, Copy, Debug, PartialEq, Eq, Structural)]
pub struct Lambertian {
    pub albedo: Colour,
}

/// A mirror.
#[derive(Clone, Copy, Debug, PartialEq, Eq, Structural)]
pub struct Metal {
    pub albedo: Colour,
}

#[derive(Clone, Copy, Debug, PartialEq, Eq, Structural)]
pub enum Material {
    Lambertian(Lambertian),
    Metal(Metal),
}

impl Lambertian {
    /// The scattered direction: the candidate, or the normal where the
    /// candidate is degenerate.
    pub open spec fn direction(rec: HitRecord, candidate: Vector3) -> Vector3 {
        if candidate.spec_near_zero() {
            rec.normal
        } else {
            candidate
        }
    }

    pub fn new(a: Colour) -> (m: Lambertian)
        ensures
            m.albedo == a,
    {
        Lambertian { albedo: a }
    }

    /// The attenuation and the scattered ray. `candidate` is the hit's normal
    /// plus a vector drawn uniformly from the unit sphere. Always scatters.
    pub fn scatter(&self, rec: &HitRecord, candidate: Vector3) -> (r: Option<(Colour, Ray)>)
        ensures
            r == Some((self.albedo, Ray { orig: rec.p, dir: Lambertian::direction(*rec, candidate) })),
    {
        let mut scatter_direction = candidate;
        if scatter_direction.near_zero() {
            scatter_direction = rec.normal;
        }
        Some((self.albedo, Ray::new(rec.p, scatter_direction)))
    }
}

impl Metal {
    pub fn new(a: Colour) -> (m: Metal)
        ensures
            m.albedo == a,
    {
        Metal { albedo: a }
    }

    /// The attenuation and the scattered ray. `reflected` is the mirror image
    /// `d - 2 (d.n) n` of the unit incoming direction `d` about the hit's
    /// normal `n`. Always scatters.
    pub fn scatter(&self, rec: &HitRecord, reflected: Vector3) -> (r: Option<(Colour, Ray)>)
        ensures
            r == Some((self.albedo, Ray { orig: rec.p, dir: reflected })),
    {
        Some((self.albedo, Ray::new(rec.p, reflected)))
    }
}

impl Material {
    /// What `scatter` returns.
    pub open spec fn scattered(self, rec: HitRecord, direction: Vector3) -> Option<(Colour, Ray)> {
        match self {
            Material::Lambertian(m) => Some(
                (m.albedo, Ray { orig: rec.p, dir: Lambertian::direction(rec, direction) }),
            ),
            Material::Metal(m) => Some((m.albedo, Ray { orig: rec.p, dir: direction })),
        }
    }

    /// The attenuation and the scattered ray for a hit on this material, or
    /// none where the ray is absorbed. `direction` is what the material's
    /// kind asks of the caller: see [`Lambertian::scatter`] and
    /// [`Metal::scatter`].
    pub fn scatter(&self, rec: &HitRecord, direction: Vector3) -> (r: Option<(Colour, Ray)>)
        ensures
            r == self.scattered(*rec, direction),
            r.is_some(),
    {
        match self {
            Material::Lambertian(m) => m.scatter(rec, direction),
            Material::Metal(m) => m.scatter(rec, direction),
        }
    }
}

} // verus!
