//! Shader selection for the layered planet and star materials.
use vstd::prelude::*;

pub mod planet;

verus! {

/// One shading layer of a body. Opaque layers are written with a depth test,
/// additive layers are blended on top of what is already drawn.
#[derive(Clone, Copy, Debug, PartialEq, Eq, Structural)]
pub enum PlanetShader {
    StarCore,
    StarPlasma,
    StarCorona,
    StarHotspots,
    StarFilaments,
    EarthOcean,
    EarthLand,
    EarthClouds,
    EarthNight,
    MoonBase,
    MoonDetail,
    MoonRim,
    MoonThermal,
    RingBase,
    RingGlow,
    GasBase,
    GasEddies,
    GasHighClouds,
    GasAurora,
    RockLavaOcean,
    RockLavaLand,
    RockLavaClouds,
    RockLavaNight,
    RockVerdantOcean,
    RockVerdantLand,
    RockVerdantClouds,
    RockVerdantNight,
    MoonLavaBase,
    MoonLavaDetail,
    MoonLavaRim,
    MoonLavaThermal,
    MoonVerdantBase,
    MoonVerdantDetail,
    MoonVerdantRim,
    MoonVerdantThermal,
    GasGoldBase,
    GasGoldEddies,
    GasGoldHighClouds,
    GasGoldAurora,
    RingGoldBase,
    RingGoldGlow,
}

impl PlanetShader {
    /// The opaque layers: the base of each body, the star core and its hotspot overlay.
    pub open spec fn spec_is_opaque(self) -> bool {
        match self {
            PlanetShader::StarCore | PlanetShader::StarHotspots | PlanetShader::EarthOcean
            | PlanetShader::MoonBase | PlanetShader::RingBase | PlanetShader::GasBase
            | PlanetShader::RockLavaOcean | PlanetShader::RockVerdantOcean
            | PlanetShader::MoonLavaBase | PlanetShader::MoonVerdantBase
            | PlanetShader::GasGoldBase | PlanetShader::RingGoldBase => true,
            _ => false,
        }
    }

    /// The layers shaded without the Lambert light term: every star layer, the
    /// rings, and the clouds, night lights, rim haze, thermal glow, high clouds
    /// and aurora of the planets and moons.
    pub open spec fn spec_is_unlit(self) -> bool {
        match self {
            PlanetShader::EarthOcean | PlanetShader::EarthLand | PlanetShader::MoonBase
            | PlanetShader::MoonDetail | PlanetShader::GasBase | PlanetShader::GasEddies
            | PlanetShader::RockLavaOcean | PlanetShader::RockLavaLand
            | PlanetShader::RockVerdantOcean | PlanetShader::RockVerdantLand
            | PlanetShader::MoonLavaBase | PlanetShader::MoonLavaDetail
            | PlanetShader::MoonVerdantBase | PlanetShader::MoonVerdantDetail
            | PlanetShader::GasGoldBase | PlanetShader::GasGoldEddies => false,
            _ => true,
        }
    }

    /// Whether fragments of this layer are blended additively instead of depth tested.
    pub fn is_additive(self) -> (r: bool)
        ensures
            r == !self.spec_is_opaque(),
    {
        match self {
            PlanetShader::StarCore | PlanetShader::StarHotspots | PlanetShader::EarthOcean
            | PlanetShader::MoonBase | PlanetShader::RingBase | PlanetShader::GasBase
            | PlanetShader::RockLavaOcean | PlanetShader::RockVerdantOcean
            | PlanetShader::MoonLavaBase | PlanetShader::MoonVerdantBase
            | PlanetShader::GasGoldBase | PlanetShader::RingGoldBase => false,
            _ => true,
        }
    }

    /// Whether this layer is shaded without lighting.
    pub fn is_unlit(self) -> (r: bool)
        ensures
            r == self.spec_is_unlit(),
    {
        match self {
            PlanetShader::EarthOcean | PlanetShader::EarthLand | PlanetShader::MoonBase
            | PlanetShader::MoonDetail | PlanetShader::GasBase | PlanetShader::GasEddies
            | PlanetShader::RockLavaOcean | PlanetShader::RockLavaLand
            | PlanetShader::RockVerdantOcean | PlanetShader::RockVerdantLand
            | PlanetShader::MoonLavaBase | PlanetShader::MoonLavaDetail
            | PlanetShader::MoonVerdantBase | PlanetShader::MoonVerdantDetail
            | PlanetShader::GasGoldBase | PlanetShader::GasGoldEddies => false,
            _ => true,
        }
    }
}

} // verus!
