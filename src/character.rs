use crate::damage::{Attribute, Category};
use crate::stats::Condition;
use vstd::prelude::*;

verus! {

/// Identifies a talent: its attack category, if any, and its number.
#[derive(Clone, Copy, Debug, PartialEq, Eq, Hash, Structural)]
pub struct ID {
    typ: Option<Category>,
    num: u8,
}

impl ID {
    pub closed spec fn spec_typ(&self) -> Option<Category> {
        self.typ
    }

    pub closed spec fn spec_num(&self) -> u8 {
        self.num
    }

    pub fn new(typ: Option<Category>, num: u8) -> (r: Self)
        ensures
            r.spec_typ() == typ,
            r.spec_num() == num,
    {
        ID { typ, num }
    }
}

/// The conditions that an attack of the given attribute and category meets:
/// its attribute, then its category, each only when known.
pub open spec fn conditions_spec(attribute: Option<Attribute>, category: Option<Category>) -> Seq<
    Option<Condition>,
> {
    let a = match attribute {
        Some(x) => seq![Some(Condition::Attribute(x))],
        None => Seq::empty(),
    };
    let c = match category {
        Some(x) => seq![Some(Condition::Category(x))],
        None => Seq::empty(),
    };
    a + c
}

/// The conditions that a talent with this attribute and category meets.
pub fn conditions_met(attribute: Option<Attribute>, category: Option<Category>) -> (r: Vec<
    Option<Condition>,
>)
    ensures
        r@ == conditions_spec(attribute, category),
{
    let mut r: Vec<Option<Condition>> = Vec::new();
    if let Some(x) = attribute {
        r.push(Some(Condition::Attribute(x)));
    }
    if let Some(x) = category {
        r.push(Some(Condition::Category(x)));
    }
    proof {
        assert(r@ =~= conditions_spec(attribute, category));
    }
    r
}

} // verus!
