use chem_balancer::element::Element;
use chem_balancer::entity::Entity;
use chem_balancer::equation::Equation;
use chem_balancer::item::Item;

fn molecule(parts: &[(&str, u8)], charge: i8) -> Entity {
    let mut items = Vec::new();
    for (name, count) in parts {
        items.push(Item::Element(Element::new(name.to_string(), *count)));
    }
    Entity::new(items, charge)
}

fn water_synthesis() -> Equation {
    Equation::new(
        vec![molecule(&[("H", 2)], 0), molecule(&[("O", 2)], 0)],
        vec![molecule(&[("H", 2), ("O", 1)], 0)],
    )
}

#[test]
fn equation_test_new() {
    let equation = water_synthesis();
    assert_eq!(equation.reactants.len(), 2);
    assert_eq!(equation.products.len(), 1);
}

#[test]
fn test_get_elements_names() {
    assert_eq!(water_synthesis().get_elements_names(), vec!["e", "H", "O"]);
    let equation = Equation::new(
        vec![molecule(&[("Na", 1), ("O", 1), ("H", 1)], 0), molecule(&[("Cl", 2)], 0)],
        vec![molecule(&[("Na", 1), ("Cl", 1)], 0), molecule(&[("H", 2), ("O", 1)], 0)],
    );
    assert_eq!(equation.get_elements_names(), vec!["e", "Na", "O", "H", "Cl"]);
}

#[test]
fn test_format_entities() {
    let equation = water_synthesis();
    assert_eq!(equation.format_entities(&[2, 1], &equation.reactants), "2\u{a0}H2 + O2");
    assert_eq!(equation.format_entities(&[], &equation.reactants), "H2 + O2");
    assert_eq!(equation.format_entities(&[3], &equation.reactants), "3\u{a0}H2 + O2");
    assert_eq!(equation.format_entities(&[0, 4], &equation.reactants), "4\u{a0}O2");
    assert_eq!(equation.format_entities(&[4, 0], &equation.reactants), "4\u{a0}H2");
    assert_eq!(equation.format_entities(&[0, 0], &equation.reactants), "");
    assert_eq!(equation.format_entities(&[-2, 1], &equation.reactants), "-2\u{a0}H2 + O2");
    assert_eq!(equation.format_entities(&[1, 2], &[]), "");
}

#[test]
fn equation_test_format() {
    let equation = water_synthesis();
    assert_eq!(equation.format(&[2, 1, 2]), "2\u{a0}H2 + O2 = 2\u{a0}H2O");
    assert_eq!(equation.format(&[1, 1, 1]), "H2 + O2 = H2O");
    assert_eq!(equation.format(&[2, 1]), "2\u{a0}H2 + O2 = H2O");
    assert_eq!(equation.format(&[0, 1, 0]), "O2 = ");
    assert_eq!(equation.format(&[10, 0, 2147483647]), "10\u{a0}H2 = 2147483647\u{a0}H2O");
    assert_eq!(equation.format(&[1, 1, -2147483648]), "H2 + O2 = -2147483648\u{a0}H2O");
}

#[test]
fn equation_is_countable_for_ordinary_formulas() {
    assert!(water_synthesis().is_countable());
}

#[test]
fn names_stand_once_each() {
    let equation = Equation::new(
        vec![molecule(&[("H", 2), ("O", 1), ("H", 1)], -1), molecule(&[("O", 2), ("H", 2)], 2)],
        vec![molecule(&[("O", 1), ("H", 2), ("S", 1), ("O", 3)], 0)],
    );
    assert_eq!(equation.get_elements_names(), vec!["e", "H", "O", "S"]);
}
