use chem_balancer::element::Element;
use chem_balancer::group::Group;
use chem_balancer::item::Item;

#[test]
fn group_test_new() {
    let element = Element::new("H".to_string(), 2);
    let items: Vec<Item> = vec![Item::Element(element)];
    let group = Group::new(items, 1);
    assert_eq!(group.count, 1);
}

#[test]
fn group_test_add_to_elements_names() {
    let mut elements_names = Vec::new();
    let mut result = Vec::new();
    let element = Element::new("H".to_string(), 2);
    let items: Vec<Item> = vec![Item::Element(element)];
    let group = Group::new(items, 1);
    group.add_to_elements_names(&mut elements_names);
    result.push("H".to_string());
    assert_eq!(elements_names, result);
}

#[test]
fn group_test_count_element_by_name() {
    let element = Element::new("H".to_string(), 2);
    let items: Vec<Item> = vec![Item::Element(element)];
    let group = Group::new(items, 1);
    assert_eq!(group.count_element_by_name("H"), 2);

    let element = Element::new("H".to_string(), 2);
    let items: Vec<Item> = vec![Item::Element(element)];
    let group = Group::new(items, 2);
    assert_eq!(group.count_element_by_name("H"), 4);
}

#[test]
fn group_test_format() {
    let element = Element::new("H".to_string(), 2);
    let items: Vec<Item> = vec![Item::Element(element)];
    let group = Group::new(items, 1);
    assert_eq!(group.format(), "(H2)");

    let element = Element::new("H".to_string(), 2);
    let items: Vec<Item> = vec![Item::Element(element)];
    let group = Group::new(items, 2);
    assert_eq!(group.format(), "(H2)2");
}

fn sulfate(count: u8) -> Group {
    Group::new(
        vec![
            Item::Element(Element::new("S".to_string(), 1)),
            Item::Element(Element::new("O".to_string(), 4)),
        ],
        count,
    )
}

#[test]
fn group_counts_multiply_through_nested_groups() {
    let outer = Group::new(
        vec![Item::Group(sulfate(3)), Item::Element(Element::new("O".to_string(), 1))],
        2,
    );
    assert_eq!(outer.count_element_by_name("S"), 6);
    assert_eq!(outer.count_element_by_name("O"), 26);
    assert_eq!(outer.count_element_by_name("H"), 0);
    assert_eq!(outer.format(), "((SO4)3O)2");
    assert_eq!(outer.weight(), Some(32));
}

#[test]
fn group_names_come_in_the_order_of_their_first_occurrence() {
    let outer = Group::new(
        vec![
            Item::Element(Element::new("O".to_string(), 1)),
            Item::Group(sulfate(1)),
            Item::Element(Element::new("H".to_string(), 1)),
        ],
        1,
    );
    let mut names = vec!["Fe".to_string()];
    outer.add_to_elements_names(&mut names);
    assert_eq!(names, vec!["Fe", "O", "S", "H"]);
}

#[test]
fn group_weight_stops_at_the_limit() {
    let group = Group::new(vec![Item::Element(Element::new("H".to_string(), 255))], 255);
    let group = Group::new(vec![Item::Group(group)], 255);
    assert_eq!(group.weight(), Some(255 * 255 * 255));
    assert_eq!(group.count_element_by_name("H"), 16581375);
    let group = Group::new(vec![Item::Group(group)], 129);
    assert_eq!(group.weight(), Some(2138997375));
    let group = Group::new(vec![Item::Group(group), Item::Element(Element::new("O".to_string(), 255))], 1);
    assert_eq!(group.weight(), Some(2138997630));
    let group = Group::new(vec![Item::Group(group)], 2);
    assert_eq!(group.weight(), None);
}

#[test]
fn item_gives_what_it_holds() {
    let item = Item::Group(sulfate(2));
    assert_eq!(item.format(), "(SO4)2");
    assert_eq!(item.count_element_by_name("O"), 8);
    assert_eq!(item.weight(), Some(10));
    let mut names = Vec::new();
    item.add_to_elements_names(&mut names);
    assert_eq!(names, vec!["S", "O"]);
    let item = Item::Element(Element::new("Fe".to_string(), 3));
    assert_eq!(item.format(), "Fe3");
    assert_eq!(item.weight(), Some(3));
}
