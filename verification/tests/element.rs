use chem_balancer::element::Element;

#[test]
fn element_test_new() {
    let element = Element::new("H".to_string(), 2);
    assert_eq!(element.name, "H");
    assert_eq!(element.count, 2);
}

#[test]
fn element_test_add_to_elements_names() {
    let mut elements_names = Vec::new();
    let mut result = Vec::new();
    let element = Element::new("H".to_string(), 2);
    element.add_to_elements_names(&mut elements_names);
    result.push("H".to_string());
    assert_eq!(elements_names, result);

    element.add_to_elements_names(&mut elements_names);
    assert_eq!(elements_names, result);

    let element = Element::new("O".to_string(), 1);
    element.add_to_elements_names(&mut elements_names);
    result.push("O".to_string());
    assert_eq!(elements_names, result);
}

#[test]
fn element_test_count_element_by_name() {
    let element = Element::new("H".to_string(), 2);
    assert_eq!(element.count_element_by_name("H"), 2);
    assert_eq!(element.count_element_by_name("O"), 0);
}

#[test]
fn element_test_format() {
    assert_eq!(Element::new("H".to_string(), 2).format(), "H2");
    assert_eq!(Element::new("O".to_string(), 1).format(), "O");
}

#[test]
fn element_format_writes_every_other_count() {
    assert_eq!(Element::new("C".to_string(), 10).format(), "C10");
    assert_eq!(Element::new("Fe".to_string(), 255).format(), "Fe255");
}

#[test]
fn element_count_needs_the_whole_name() {
    let element = Element::new("Na".to_string(), 3);
    assert_eq!(element.count_element_by_name("N"), 0);
    assert_eq!(element.count_element_by_name("Na"), 3);
    assert_eq!(element.count_element_by_name("Nab"), 0);
}
