use crate::damage::Attribute;
use crate::stats::Type as StatType;
use vstd::prelude::*;

verus! {

/// A key of the damage calculator: a branch computed by a rule, a leaf supplied
/// by the caller, or one of the two constants.
#[derive(Clone, Copy, Debug, PartialEq, Eq, Hash, Structural)]
pub enum GCK {
    B(B),
    L(L),
    One,
    Zero,
}

impl From<StatType> for GCK {
    fn from(value: StatType) -> (r: Self)
        ensures
            r == GCK::L(L::Stat(value)),
    {
        GCK::L(L::Stat(value))
    }
}

impl vstd::std_specs::convert::FromSpecImpl<StatType> for GCK {
    open spec fn obeys_from_spec() -> bool {
        true
    }

    open spec fn from_spec(v: StatType) -> Self {
        GCK::L(L::Stat(v))
    }
}

/// Branch keys: computed from the leaves by the rules, though a caller may
/// write them to override a computation.
#[derive(Clone, Copy, Debug, PartialEq, Eq, Hash, Structural)]
pub enum B {
    DamageInstanceOutput,
    BaseDMGFinal,
    BaseDMGPostMult,
    BaseDMGAdd,
    BaseDMGMult,
    BaseDMG,
    EvalScaling(S),
    DMGBonusMult,
    AttributeDMGBonusMult,
    CategoryDMGBonusMult,
    TargetDEFMult,
    TotalDEFIgnore,
    TargetRESMult,
    TargetRESFinal,
    TargetBaseRES,
    TargetAttributeRES,
    TargetAttributeRESReductNeg,
    TargetAttributeRESReduct,
    AmpRxnMult,
    PotentialAmpRxnMult,
    AmpRxnTotalBonusMult,
    AmpRxnEMMult,
    AmpRxnBonusMult,
    CritMult,
    TotalCritRate,
    TotalCritDMG,
    AttributeCritDMG,
}

/// Leaf keys: no rule computes them; the caller supplies their values.
#[derive(Clone, Copy, Debug, PartialEq, Eq, Hash, Structural)]
pub enum L {
    Zero,
    Attribute,
    Category,
    Scaling(S),
    BaseDMGAdd,
    Stat(StatType),
    TargetDMGBonusMult,
    TargetLevel,
    /// A positive reduction.
    TargetDEFReduct,
    TargetAttributeRES(Attribute),
    /// A negative reduction.
    TargetAttributeRESReduct(Attribute),
    BaseAmpRxnMult,
    AmpRxnType,
}

/// The statistic that a talent scales with.
#[derive(Clone, Copy, Debug, PartialEq, Eq, Hash, Structural)]
pub enum S {
    Atk,
    Def,
    MaxHP,
    EM,
}

} // verus!
