use vstd::prelude::*;

verus! {

/// An element of an attack or of a character. The position in this list is the
/// element's selector index for a calculator mux (nations' order of release).
#[derive(Clone, Copy, Debug, PartialEq, Eq, Hash, Structural)]
pub enum Element {
    Anemo,
    Geo,
    Electro,
    Dendro,
    Hydro,
    Pyro,
    Cryo,
}

/// An aura that an element leaves on a target.
#[derive(Clone, Copy, Debug, PartialEq, Eq, Hash, Structural)]
pub enum Aura {
    Electro,
    Dendro,
    Hydro,
    Pyro,
    Cryo,
    Catalyzed,
    BloomCore,
    Frozen,
    Burning,
    ElectroCharged,
}

/// A reaction between an aura and a triggering element.
#[derive(Clone, Copy, Debug, PartialEq, Eq, Hash, Structural)]
pub enum ElementalReaction {
    Swirl,
    Crystallize,
    Quicken,
    Aggravate,
    Spread,
    ElectroCharged,
    Overloaded,
    Superconduct,
    Bloom,
    Hyperbloom,
    Burgeon,
    Burning,
    ForwardVaporize,
    ReverseVaporize,
    Freeze,
    ForwardMelt,
    ReverseMelt,
}

/// Which reaction, if any, an element triggers on an aura.
pub open spec fn reaction_spec(aura: Aura, trigger: Element) -> Option<ElementalReaction> {
    match (aura, trigger) {
        (Aura::Electro, Element::Anemo) | (Aura::Hydro, Element::Anemo) | (Aura::Pyro, Element::Anemo)
        | (Aura::Cryo, Element::Anemo) => Some(ElementalReaction::Swirl),
        (Aura::Electro, Element::Geo) | (Aura::Hydro, Element::Geo) | (Aura::Pyro, Element::Geo)
        | (Aura::Cryo, Element::Geo) => Some(ElementalReaction::Crystallize),
        (Aura::Electro, Element::Dendro) => Some(ElementalReaction::Quicken),
        (Aura::Catalyzed, Element::Electro) => Some(ElementalReaction::Aggravate),
        (Aura::Catalyzed, Element::Dendro) => Some(ElementalReaction::Spread),
        (Aura::Electro, Element::Hydro) | (Aura::Hydro, Element::Electro) => Some(ElementalReaction::ElectroCharged),
        (Aura::Electro, Element::Pyro) | (Aura::Pyro, Element::Electro) => Some(ElementalReaction::Overloaded),
        (Aura::Electro, Element::Cryo) | (Aura::Cryo, Element::Electro) => Some(ElementalReaction::Superconduct),
        (Aura::Dendro, Element::Hydro) | (Aura::Hydro, Element::Dendro) => Some(ElementalReaction::Bloom),
        (Aura::BloomCore, Element::Electro) => Some(ElementalReaction::Hyperbloom),
        (Aura::BloomCore, Element::Pyro) => Some(ElementalReaction::Burgeon),
        (Aura::Dendro, Element::Pyro) | (Aura::Pyro, Element::Dendro) => Some(ElementalReaction::Burning),
        (Aura::Hydro, Element::Pyro) => Some(ElementalReaction::ReverseVaporize),
        (Aura::Pyro, Element::Hydro) => Some(ElementalReaction::ForwardVaporize),
        (Aura::Hydro, Element::Cryo) | (Aura::Cryo, Element::Hydro) => Some(ElementalReaction::Freeze),
        (Aura::Pyro, Element::Cryo) => Some(ElementalReaction::ReverseMelt),
        (Aura::Cryo, Element::Pyro) => Some(ElementalReaction::ForwardMelt),
        _ => None,
    }
}

impl ElementalReaction {
    /// The selector index of an amplifying reaction's kind: zero for vaporize,
    /// one for melt, two for any other reaction.
    pub fn amp_rxn_type_calcindex(&self) -> (r: u32)
        ensures
            r == match *self {
                ElementalReaction::ForwardVaporize | ElementalReaction::ReverseVaporize => 0u32,
                ElementalReaction::ForwardMelt | ElementalReaction::ReverseMelt => 1,
                _ => 2,
            },
    {
        match *self {
            Self::ForwardVaporize | Self::ReverseVaporize => 0,
            Self::ForwardMelt | Self::ReverseMelt => 1,
            _ => 2,
        }
    }

    /// The reaction that `trigger` sets off on `aura`, or `None` when they do not react.
    pub fn from_elements(aura: Aura, trigger: Element) -> (r: Option<Self>)
        ensures
            r == reaction_spec(aura, trigger),
    {
        match (aura, trigger) {
            (Aura::Electro, Element::Anemo) | (Aura::Hydro, Element::Anemo) | (Aura::Pyro, Element::Anemo)
            | (Aura::Cryo, Element::Anemo) => Some(Self::Swirl),
            (Aura::Electro, Element::Geo) | (Aura::Hydro, Element::Geo) | (Aura::Pyro, Element::Geo)
            | (Aura::Cryo, Element::Geo) => Some(Self::Crystallize),
            (Aura::Electro, Element::Dendro) => Some(Self::Quicken),
            (Aura::Catalyzed, Element::Electro) => Some(Self::Aggravate),
            (Aura::Catalyzed, Element::Dendro) => Some(Self::Spread),
            (Aura::Electro, Element::Hydro) | (Aura::Hydro, Element::Electro) => Some(Self::ElectroCharged),
            (Aura::Electro, Element::Pyro) | (Aura::Pyro, Element::Electro) => Some(Self::Overloaded),
            (Aura::Electro, Element::Cryo) | (Aura::Cryo, Element::Electro) => Some(Self::Superconduct),
            (Aura::Dendro, Element::Hydro) | (Aura::Hydro, Element::Dendro) => Some(Self::Bloom),
            (Aura::BloomCore, Element::Electro) => Some(Self::Hyperbloom),
            (Aura::BloomCore, Element::Pyro) => Some(Self::Burgeon),
            (Aura::Dendro, Element::Pyro) | (Aura::Pyro, Element::Dendro) => Some(Self::Burning),
            (Aura::Hydro, Element::Pyro) => Some(Self::ReverseVaporize),
            (Aura::Pyro, Element::Hydro) => Some(Self::ForwardVaporize),
            (Aura::Hydro, Element::Cryo) | (Aura::Cryo, Element::Hydro) => Some(Self::Freeze),
            (Aura::Pyro, Element::Cryo) => Some(Self::ReverseMelt),
            (Aura::Cryo, Element::Pyro) => Some(Self::ForwardMelt),
            _ => None,
        }
    }
}

} // verus!
