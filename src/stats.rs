use crate::damage::{Attribute, Category};
use crate::element::{Element, ElementalReaction};
use vstd::prelude::*;

verus! {

/// The kind of a character or target statistic.
#[derive(Clone, Copy, Debug, PartialEq, Eq, Hash, Structural)]
pub enum Type {
    Level,
    MaxHP,
    Atk,
    Def,
    ElementalMastery,
    CritRate,
    CritDmg,
    EnergyRecharge,
    CooldownReduction,
    ShieldStrength,
    HealingBonus,
    IncomingHealingBonus,
    /// A damage bonus, for all damage or only where the condition holds.
    DMGMult(Option<Condition>),
    /// Resistance to one attribute.
    AttributeRES(Attribute),
    BaseDMGMult(Option<Condition>),
    BaseDMGFlat(Option<Condition>),
    /// A bonus to the damage of one reaction.
    RxnDMGMult(ElementalReaction),
    DefIgnore(Option<Condition>),
}

/// What a conditional statistic applies to.
#[derive(Clone, Copy, Debug, PartialEq, Eq, Hash, Structural)]
pub enum Condition {
    Attribute(Attribute),
    Category(Category),
}

impl From<Attribute> for Condition {
    fn from(value: Attribute) -> (r: Self)
        ensures
            r == Condition::Attribute(value),
    {
        Condition::Attribute(value)
    }
}

impl vstd::std_specs::convert::FromSpecImpl<Attribute> for Condition {
    open spec fn obeys_from_spec() -> bool {
        true
    }

    open spec fn from_spec(v: Attribute) -> Self {
        Condition::Attribute(v)
    }
}

impl From<Element> for Condition {
    fn from(value: Element) -> (r: Self)
        ensures
            r == Condition::Attribute(Attribute::Elemental(value)),
    {
        Condition::Attribute(Attribute::Elemental(value))
    }
}

impl vstd::std_specs::convert::FromSpecImpl<Element> for Condition {
    open spec fn obeys_from_spec() -> bool {
        true
    }

    open spec fn from_spec(v: Element) -> Self {
        Condition::Attribute(Attribute::Elemental(v))
    }
}

impl From<Category> for Condition {
    fn from(value: Category) -> (r: Self)
        ensures
            r == Condition::Category(value),
    {
        Condition::Category(value)
    }
}

impl vstd::std_specs::convert::FromSpecImpl<Category> for Condition {
    open spec fn obeys_from_spec() -> bool {
        true
    }

    open spec fn from_spec(v: Category) -> Self {
        Condition::Category(v)
    }
}

} // verus!
