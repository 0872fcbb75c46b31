use crate::element::Element;
use vstd::prelude::*;

verus! {

/// The attribute of an attack: physical, or one of the elements.
#[derive(Clone, Copy, Debug, PartialEq, Eq, Hash, Structural)]
pub enum Attribute {
    Physical,
    Elemental(Element),
}

/// The selector index of an element for a calculator mux, counted from zero in
/// the declaration order of `Element`.
pub open spec fn element_index(e: Element) -> u32 {
    match e {
        Element::Anemo => 0,
        Element::Geo => 1,
        Element::Electro => 2,
        Element::Dendro => 3,
        Element::Hydro => 4,
        Element::Pyro => 5,
        Element::Cryo => 6,
    }
}

impl Element {
    /// The selector index of this element for a calculator mux.
    pub fn calcindex(&self) -> (r: u32)
        ensures
            r == element_index(*self),
    {
        match *self {
            Element::Anemo => 0,
            Element::Geo => 1,
            Element::Electro => 2,
            Element::Dendro => 3,
            Element::Hydro => 4,
            Element::Pyro => 5,
            Element::Cryo => 6,
        }
    }
}

impl Attribute {
    /// The selector index of this attribute: zero for physical, one plus the
    /// element's index otherwise.
    pub fn calcindex(&self) -> (r: u32)
        ensures
            r == match *self {
                Attribute::Physical => 0,
                Attribute::Elemental(e) => element_index(e) + 1,
            },
    {
        match *self {
            Attribute::Physical => 0,
            Attribute::Elemental(e) => 1 + e.calcindex(),
        }
    }
}

impl From<Element> for Attribute {
    fn from(value: Element) -> (r: Self)
        ensures
            r == Attribute::Elemental(value),
    {
        Attribute::Elemental(value)
    }
}

impl vstd::std_specs::convert::FromSpecImpl<Element> for Attribute {
    open spec fn obeys_from_spec() -> bool {
        true
    }

    open spec fn from_spec(v: Element) -> Self {
        Attribute::Elemental(v)
    }
}

impl From<Option<Element>> for Attribute {
    fn from(value: Option<Element>) -> (r: Self)
        ensures
            r == match value {
                Some(e) => Attribute::Elemental(e),
                None => Attribute::Physical,
            },
    {
        match value {
            Some(e) => Attribute::Elemental(e),
            None => Attribute::Physical,
        }
    }
}

impl vstd::std_specs::convert::FromSpecImpl<Option<Element>> for Attribute {
    open spec fn obeys_from_spec() -> bool {
        true
    }

    open spec fn from_spec(v: Option<Element>) -> Self {
        match v {
            Some(e) => Attribute::Elemental(e),
            None => Attribute::Physical,
        }
    }
}

/// The category of an attack.
#[derive(Clone, Copy, Debug, PartialEq, Eq, Hash, Structural)]
pub enum Category {
    NormalAttack,
    ChargedAttack,
    PlungeAttack,
    ElementalSkill,
    ElementalBurst,
}

impl Category {
    /// The selector index of this category for a calculator mux (bursts come
    /// before skills).
    pub fn calcindex(&self) -> (r: u32)
        ensures
            r == match *self {
                Category::NormalAttack => 0u32,
                Category::ChargedAttack => 1,
                Category::PlungeAttack => 2,
                Category::ElementalBurst => 3,
                Category::ElementalSkill => 4,
            },
    {
        match *self {
            Category::NormalAttack => 0,
            Category::ChargedAttack => 1,
            Category::PlungeAttack => 2,
            Category::ElementalBurst => 3,
            Category::ElementalSkill => 4,
        }
    }
}

/// How critical hits enter a damage figure.
#[derive(Clone, Copy, Debug, PartialEq, Eq, Hash, Structural)]
pub enum CritMode {
    NonCrit,
    AvgCrit,
    OnCrit,
}

} // verus!
