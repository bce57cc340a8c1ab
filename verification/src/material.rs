//! The materials that occupy cells of the simulation grid.

use vstd::prelude::*;

verus! {

/// The material occupying a cell in the simulation grid.
#[derive(Debug, Clone, Copy, PartialEq, Eq, Structural)]
pub enum Material {
    Vacuum,
    Air,
    Earth,
    Fire,
    Water,
    Steam,
    Ice,
    Lava,
}

impl Material {
    /// Gas phases: vacuum, air, fire and steam.
    pub open spec fn spec_is_gas(&self) -> bool {
        self is Air || self is Fire || self is Steam || self is Vacuum
    }

    /// Liquid phases: water and lava.
    pub open spec fn spec_is_liquid(&self) -> bool {
        self is Water || self is Lava
    }

    /// Earth and vacuum are inert when a scenario is first loaded.
    pub open spec fn spec_is_inert(&self) -> bool {
        self is Earth || self is Vacuum
    }

    /// Returns true if this material behaves as a gas.
    #[verifier::when_used_as_spec(spec_is_gas)]
    pub fn is_gas(&self) -> (r: bool)
        ensures
            r == self.spec_is_gas(),
    {
        match self {
            Material::Air | Material::Fire | Material::Steam | Material::Vacuum => true,
            _ => false,
        }
    }

    /// Returns true if this material behaves as a liquid.
    #[verifier::when_used_as_spec(spec_is_liquid)]
    pub fn is_liquid(&self) -> (r: bool)
        ensures
            r == self.spec_is_liquid(),
    {
        match self {
            Material::Water | Material::Lava => true,
            _ => false,
        }
    }

    /// Returns true for the materials that start out inert (earth and
    /// vacuum): they are never marked active nor seeded into the scheduler.
    #[verifier::when_used_as_spec(spec_is_inert)]
    pub fn is_inert(&self) -> (r: bool)
        ensures
            r == self.spec_is_inert(),
    {
        match self {
            Material::Earth | Material::Vacuum => true,
            _ => false,
        }
    }
}

/// No material is both a gas and a liquid.
pub proof fn lemma_gas_liquid_disjoint(m: Material)
    ensures
        !(m.is_gas() && m.is_liquid()),
{
}

/// Inert materials are neither liquids nor, apart from vacuum, gases:
/// earth is the only inert material that is neither.
pub proof fn lemma_inert_classification(m: Material)
    ensures
        m.is_inert() ==> !m.is_liquid(),
        m.is_inert() && m.is_gas() <==> m == Material::Vacuum,
{
}

/// The classes by variant: gases are vacuum, air, fire and steam; liquids
/// are water and lava; the inert materials are earth and vacuum; earth and
/// ice are the only materials that are neither gas nor liquid.
pub proof fn lemma_material_classes(m: Material)
    ensures
        m.is_gas() <==> (m == Material::Vacuum || m == Material::Air || m == Material::Fire || m
            == Material::Steam),
        m.is_liquid() <==> (m == Material::Water || m == Material::Lava),
        m.is_inert() <==> (m == Material::Earth || m == Material::Vacuum),
        !m.is_gas() && !m.is_liquid() <==> (m == Material::Earth || m == Material::Ice),
{
}

} // verus!
