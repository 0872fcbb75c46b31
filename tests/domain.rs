use giopt::character::conditions_met;
use giopt::damage::{Attribute, Category};
use giopt::element::{Aura, Element, ElementalReaction};
use giopt::gi_calculator::{GCK, L};
use giopt::stats::{Condition, Type};

#[test]
fn reactions_from_aura_and_trigger() {
    assert_eq!(
        ElementalReaction::from_elements(Aura::Cryo, Element::Pyro),
        Some(ElementalReaction::ForwardMelt)
    );
    assert_eq!(
        ElementalReaction::from_elements(Aura::Pyro, Element::Cryo),
        Some(ElementalReaction::ReverseMelt)
    );
    assert_eq!(
        ElementalReaction::from_elements(Aura::Pyro, Element::Hydro),
        Some(ElementalReaction::ForwardVaporize)
    );
    assert_eq!(
        ElementalReaction::from_elements(Aura::Electro, Element::Anemo),
        Some(ElementalReaction::Swirl)
    );
    assert_eq!(
        ElementalReaction::from_elements(Aura::Catalyzed, Element::Dendro),
        Some(ElementalReaction::Spread)
    );
    assert_eq!(ElementalReaction::from_elements(Aura::Frozen, Element::Geo), None);
    assert_eq!(ElementalReaction::from_elements(Aura::Dendro, Element::Anemo), None);
}

#[test]
fn selector_indices() {
    assert_eq!(Element::Anemo.calcindex(), 0);
    assert_eq!(Element::Cryo.calcindex(), 6);
    assert_eq!(Attribute::Physical.calcindex(), 0);
    assert_eq!(Attribute::from(Element::Pyro).calcindex(), 6);
    assert_eq!(Attribute::from(None::<Element>), Attribute::Physical);
    assert_eq!(Category::ElementalBurst.calcindex(), 3);
    assert_eq!(Category::ElementalSkill.calcindex(), 4);
    assert_eq!(ElementalReaction::ReverseVaporize.amp_rxn_type_calcindex(), 0);
    assert_eq!(ElementalReaction::ForwardMelt.amp_rxn_type_calcindex(), 1);
    assert_eq!(ElementalReaction::Bloom.amp_rxn_type_calcindex(), 2);
}

#[test]
fn key_conversions() {
    assert_eq!(GCK::from(Type::Atk), GCK::L(L::Stat(Type::Atk)));
    assert_eq!(
        Condition::from(Element::Hydro),
        Condition::Attribute(Attribute::Elemental(Element::Hydro))
    );
    assert_eq!(Condition::from(Category::PlungeAttack), Condition::Category(Category::PlungeAttack));
}

#[test]
fn talent_conditions() {
    assert_eq!(
        conditions_met(Some(Attribute::Elemental(Element::Pyro)), Some(Category::ElementalBurst)),
        vec![
            Some(Condition::Attribute(Attribute::Elemental(Element::Pyro))),
            Some(Condition::Category(Category::ElementalBurst))
        ]
    );
    assert_eq!(conditions_met(None, Some(Category::NormalAttack)), vec![Some(Condition::Category(Category::NormalAttack))]);
    assert!(conditions_met(None, None).is_empty());
}
