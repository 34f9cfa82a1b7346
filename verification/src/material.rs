//! Materials, and what a material answers when a ray strikes it.
//!
//! The types are generic in what they carry (textures, colours, rays,
//! densities); the module fixes which material answers in which way.

use vstd::prelude::*;

verus! {

/// The closed set of materials. `T` is a texture, `C` a colour and `S` a
/// scalar.
pub enum Material<T, C, S> {
    /// Diffuse surface with the given albedo.
    Lambertian(T),
    /// Diffuse weight, diffuse texture, specular texture, shininess.
    Phong(S, T, T, u32),
    /// Mirror with the given albedo and roughness.
    Metal(C, S),
    /// Clear body with the given index of refraction.
    Dielectric(S),
    /// Light source with the given radiance.
    Emission(T),
}

/// The way in which a material passes a ray on.
#[derive(Debug, Copy, Clone, PartialEq, Eq, Structural)]
pub enum Mode {
    /// One follow-up ray, fixed by the material.
    Specular,
    /// A direction to be drawn from a density.
    Sampled,
}

/// What a material answers to a ray: a follow-up ray, or a density to draw
/// the next direction from. Each comes with the attenuation; an answer is
/// always exactly one of the two.
pub enum Scatter<R, D, C> {
    Specular { ray: R, attenuation: C },
    Sampled { pdf: D, attenuation: C },
}

impl<T, C, S> Material<T, C, S> {
    /// Whether the material gives off light: only `Emission` does.
    pub open spec fn emissive(&self) -> bool {
        self is Emission
    }

    /// The way in which the material scatters, if it does: lights do not,
    /// mirrors and glass pass on one ray, the others are sampled.
    pub open spec fn scattering(&self) -> Option<Mode> {
        match self {
            Material::Lambertian(_) => Some(Mode::Sampled),
            Material::Phong(_, _, _, _) => Some(Mode::Sampled),
            Material::Metal(_, _) => Some(Mode::Specular),
            Material::Dielectric(_) => Some(Mode::Specular),
            Material::Emission(_) => None,
        }
    }

    pub fn is_emissive(&self) -> (b: bool)
        ensures
            b == self.emissive(),
    {
        match self {
            Material::Emission(_) => true,
            _ => false,
        }
    }

    pub fn mode(&self) -> (m: Option<Mode>)
        ensures
            m == self.scattering(),
    {
        match self {
            Material::Lambertian(_) => Some(Mode::Sampled),
            Material::Phong(_, _, _, _) => Some(Mode::Sampled),
            Material::Metal(_, _) => Some(Mode::Specular),
            Material::Dielectric(_) => Some(Mode::Specular),
            Material::Emission(_) => None,
        }
    }
}

impl<R, D, C> Scatter<R, D, C> {
    pub open spec fn mode_of(&self) -> Mode {
        match self {
            Scatter::Specular { .. } => Mode::Specular,
            Scatter::Sampled { .. } => Mode::Sampled,
        }
    }

    pub fn mode(&self) -> (m: Mode)
        ensures
            m == self.mode_of(),
    {
        match self {
            Scatter::Specular { .. } => Mode::Specular,
            Scatter::Sampled { .. } => Mode::Sampled,
        }
    }

    /// The attenuation that comes with either answer.
    pub fn attenuation(&self) -> (c: &C)
        ensures
            *c == match *self {
                Scatter::Specular { attenuation, .. } => attenuation,
                Scatter::Sampled { attenuation, .. } => attenuation,
            },
    {
        match self {
            Scatter::Specular { attenuation, .. } => attenuation,
            Scatter::Sampled { attenuation, .. } => attenuation,
        }
    }
}

/// A material that gives off light does not scatter, and every other one
/// does.
pub proof fn lemma_lights_do_not_scatter<T, C, S>(m: Material<T, C, S>)
    ensures
        m.emissive() <==> m.scattering() is None,
{
}

/// Whether glass reflects rather than refracts: it must where refraction
/// has no solution, and it does where the draw fell below the reflectance.
pub fn dielectric_reflects(cannot_refract: bool, drawn_below_reflectance: bool) -> (b: bool)
    ensures
        b == (cannot_refract || drawn_below_reflectance),
{
    cannot_refract || drawn_below_reflectance
}

} // verus!
