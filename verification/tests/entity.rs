use chem_balancer::element::Element;
use chem_balancer::entity::Entity;
use chem_balancer::group::Group;
use chem_balancer::item::Item;

fn carbonate(charge: i8) -> Entity {
    Entity::new(
        vec![
            Item::Element(Element::new("C".to_string(), 1)),
            Item::Element(Element::new("O".to_string(), 3)),
        ],
        charge,
    )
}

#[test]
fn entity_test_new() {
    let element = Element::new("H".to_string(), 2);
    let items: Vec<Item> = vec![Item::Element(element)];
    let entity = Entity::new(items, 1);
    assert_eq!(entity.charge, 1);
}

#[test]
fn entity_test_add_to_elements_names() {
    let mut names = Vec::new();
    carbonate(-2).add_to_elements_names(&mut names);
    assert_eq!(names, vec!["e", "C", "O"]);
    carbonate(0).add_to_elements_names(&mut names);
    assert_eq!(names, vec!["e", "C", "O"]);
}

#[test]
fn entity_test_count_element_by_name() {
    let entity = carbonate(-2);
    assert_eq!(entity.count_element_by_name("C"), 1);
    assert_eq!(entity.count_element_by_name("O"), 3);
    assert_eq!(entity.count_element_by_name("e"), 2);
    assert_eq!(entity.count_element_by_name("H"), 0);
    assert_eq!(carbonate(3).count_element_by_name("e"), -3);
}

#[test]
fn entity_test_format() {
    assert_eq!(carbonate(0).format(), "CO3");
    assert_eq!(carbonate(-2).format(), "CO3{2\u{2212}}");
    assert_eq!(carbonate(3).format(), "CO3{3+}");
    assert_eq!(carbonate(1).format(), "CO3");
    assert_eq!(carbonate(-1).format(), "CO3");
    assert_eq!(Entity::new(vec![], -1).format(), "e\u{2212}");
}

#[test]
fn entity_format_writes_the_largest_charges() {
    assert_eq!(carbonate(127).format(), "CO3{127+}");
    assert_eq!(carbonate(-127).format(), "CO3{127\u{2212}}");
    assert_eq!(carbonate(-128).format(), "CO3{128\u{2212}}");
}

#[test]
fn entity_weight_adds_the_charge() {
    assert_eq!(carbonate(-2).weight(), Some(6));
    assert_eq!(Entity::new(vec![], -1).weight(), Some(1));
}

#[test]
fn entity_with_a_group_formats_and_counts() {
    let entity = Entity::new(
        vec![
            Item::Element(Element::new("Al".to_string(), 2)),
            Item::Group(Group::new(
                vec![
                    Item::Element(Element::new("S".to_string(), 1)),
                    Item::Element(Element::new("O".to_string(), 4)),
                ],
                3,
            )),
        ],
        0,
    );
    assert_eq!(entity.format(), "Al2(SO4)3");
    assert_eq!(entity.count_element_by_name("O"), 12);
    assert_eq!(entity.count_element_by_name("Al"), 2);
    assert_eq!(Item::Entity(entity).count_element_by_name("S"), 3);
}
