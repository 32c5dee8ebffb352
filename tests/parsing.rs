use xml_interpreter::{Attribute, AttributeEnding, Element, ElementState, ElementTree, ParseError};

fn attr(key: &str, value: Option<&str>) -> Attribute {
    Attribute { key: String::from(key), value: value.map(String::from) }
}

fn element(id: usize, name: &str, attributes: Vec<Attribute>, parent_id: Option<usize>, depth: usize, children: Vec<usize>) -> Element {
    Element { id, name: String::from(name), attributes, parent_id, depth, children }
}

#[test]
fn test_attribute_parsing() {
    let attribute = Attribute {
        key: String::from("name"),
        value: Some(String::from("jester")),
    };

    assert_eq!(Ok(AttributeEnding::Unfinished((attribute.clone(), ""))), Attribute::parse("name=jester "));
    assert_eq!(Ok(AttributeEnding::SelfClosing((attribute.clone(), ""))), Attribute::parse("name=jester/>"));
    assert_eq!(Ok(AttributeEnding::RequiresClosing((attribute, ""))), Attribute::parse("name=jester>"));
    assert_eq!(Ok(AttributeEnding::End), Attribute::parse(""));
}

#[test]
fn test_element_parsing() {
    let element = Element {
        id: 0,
        name: String::from("root"),
        attributes: Vec::new(),
        parent_id: None,
        depth: 0,
        children: Vec::new(),
    };

    assert_eq!(Ok(ElementState::Opening((element.clone(), "</root>"))), Element::parse(0, "<root></root>"));
    assert_eq!(Ok(ElementState::Closing((element.clone(), ""))), Element::parse(0, "</root>"));
    assert_eq!(Ok(ElementState::SelfClosing((element, ""))), Element::parse(0, "<root />"));
    // A tag with an empty name is an error.
    assert_eq!(Err(ParseError::EmptyTagName), Element::parse(0, "<>"));
}

#[test]
fn test_element_tree() {
    let mut solution = ElementTree {
        root_id: 0,
        elements: vec![
            element(0, "root", Vec::new(), None, 1, vec![1]),
            element(1, "text", vec![attr("width", Some("5"))], Some(0), 2, vec![2]),
            element(2, "img", Vec::new(), Some(1), 3, Vec::new()),
        ],
    };

    assert_eq!(Ok(solution), ElementTree::parse("<root><text width=5><img /></text></root>"));

    solution = ElementTree {
        root_id: 0,
        elements: vec![element(0, "root", Vec::new(), None, 1, Vec::new())],
    };

    assert_eq!(Ok(solution), ElementTree::parse("<root></root>"));
}
