use vstd::prelude::*;

verus! {

/// The denominator of attenuation factors: an albedo component of
/// `ALBEDO_ONE` passes all light on.
pub const ALBEDO_ONE: u64 = 256;

/// The largest component of an emitted or background color.
pub const EMIT_MAX: u64 = 0x1_0000;

/// A color (radiance) triple.
#[derive(Clone, Copy, Debug, PartialEq, Eq, Structural)]
pub struct Color {
    pub r: u64,
    pub g: u64,
    pub b: u64,
}

impl Color {
    pub open spec fn bounded_by(self, m: int) -> bool {
        self.r <= m && self.g <= m && self.b <= m
    }

    pub fn new(r: u64, g: u64, b: u64) -> (c: Color)
        ensures
            c == (Color { r, g, b }),
    {
        Color { r, g, b }
    }

    pub fn black() -> (c: Color)
        ensures
            c == black(),
    {
        Color { r: 0, g: 0, b: 0 }
    }
}

pub open spec fn black() -> Color {
    Color { r: 0, g: 0, b: 0 }
}

/// How a surface answers light.
#[derive(Clone, Copy, Debug, PartialEq, Eq, Structural)]
pub enum Material {
    /// Diffuse reflection with the given albedo.
    Lambertian { albedo: Color },
    /// Mirror reflection perturbed by a random offset of up to
    /// `fuzz / 256` times the reflected ray's size.
    Metal { albedo: Color, fuzz: i64 },
    /// A pure emitter.
    DiffuseLight { emit: Color },
    /// Scattering into a random direction, for volumes.
    Isotropic { albedo: Color },
}

impl Material {
    pub open spec fn wf(self) -> bool {
        match self {
            Material::Lambertian { albedo } => albedo.bounded_by(ALBEDO_ONE as int),
            Material::Metal { albedo, fuzz } => albedo.bounded_by(ALBEDO_ONE as int) && 0 <= fuzz <= 256,
            Material::DiffuseLight { emit } => emit.bounded_by(EMIT_MAX as int),
            Material::Isotropic { albedo } => albedo.bounded_by(ALBEDO_ONE as int),
        }
    }

    /// The light the surface gives off: its color for a light, black otherwise.
    pub open spec fn emitted_spec(self) -> Color {
        match self {
            Material::DiffuseLight { emit } => emit,
            _ => black(),
        }
    }

    pub fn emitted(&self) -> (c: Color)
        ensures
            c == self.emitted_spec(),
    {
        match self {
            Material::DiffuseLight { emit } => *emit,
            _ => Color::black(),
        }
    }
}

} // verus!
