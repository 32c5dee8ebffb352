use xml_interpreter::types;
use xml_interpreter::{Attribute, AttributeEnding, Element, ElementState, ElementTree, ParseError};

fn attr(key: &str, value: Option<&str>) -> Attribute {
    Attribute { key: String::from(key), value: value.map(String::from) }
}

fn names(tree: &ElementTree) -> Vec<String> {
    tree.elements.iter().map(|e| e.name.clone()).collect()
}

#[test]
fn nested_document_gives_arena() {
    let tree = ElementTree::parse("<root><text width=5><img/></text></root>").unwrap();
    assert_eq!(tree.root_id, 0);
    assert_eq!(names(&tree), vec!["root", "text", "img"]);
    assert_eq!(tree.elements[0].children, vec![1]);
    assert_eq!(tree.elements[0].parent_id, None);
    assert_eq!(tree.elements[1].attributes, vec![attr("width", Some("5"))]);
    assert_eq!(tree.elements[1].children, vec![2]);
    assert_eq!(tree.elements[1].parent_id, Some(0));
    assert_eq!(tree.elements[2].attributes, Vec::new());
    assert_eq!(tree.elements[2].children, Vec::<usize>::new());
    assert_eq!(tree.elements[2].parent_id, Some(1));
}

#[test]
fn children_follow_document_order() {
    let tree = ElementTree::parse("<a> <b/> <c><e/></c> <d x=1/> </a>").unwrap();
    assert_eq!(names(&tree), vec!["a", "b", "c", "e", "d"]);
    assert_eq!(tree.elements[0].children, vec![1, 2, 4]);
    assert_eq!(tree.elements[2].children, vec![3]);
    assert_eq!(tree.elements[3].parent_id, Some(2));
    assert_eq!(tree.elements[4].parent_id, Some(0));
    for (i, e) in tree.elements.iter().enumerate() {
        assert_eq!(e.id, i);
    }
}

#[test]
fn self_closing_tag_is_leaf_whatever_its_attributes() {
    let tree = ElementTree::parse("<a><b x=1 y z=2/><b/></a>").unwrap();
    assert_eq!(tree.elements[1].children, Vec::<usize>::new());
    assert_eq!(tree.elements[1].attributes, vec![attr("x", Some("1")), attr("y", None), attr("z", Some("2"))]);
    assert_eq!(tree.elements[2].children, Vec::<usize>::new());
    assert_eq!(tree.elements[0].children, vec![1, 2]);
}

#[test]
fn repeated_attributes_are_kept_in_order() {
    let expected = Element {
        id: 3,
        name: String::from("a"),
        attributes: vec![attr("x", Some("1")), attr("x", Some("2"))],
        parent_id: None,
        depth: 0,
        children: Vec::new(),
    };
    assert_eq!(Ok(ElementState::Opening((expected, ""))), Element::parse(3, "<a x=1 x=2>"));
    let tree = ElementTree::parse("<a x=1 x=2></a>").unwrap();
    assert_eq!(tree.elements[0].attributes, vec![attr("x", Some("1")), attr("x", Some("2"))]);
}

#[test]
fn mismatched_closing_tag() {
    assert_eq!(
        Err(ParseError::MismatchedClosingTag { expected: String::from("a"), found: String::from("b") }),
        ElementTree::parse("<a></b>")
    );
}

#[test]
fn unclosed_tags_at_end() {
    assert_eq!(Err(ParseError::UnclosedTagsAtEof(vec![String::from("a")])), ElementTree::parse("<a>"));
    assert_eq!(
        Err(ParseError::UnclosedTagsAtEof(vec![String::from("b"), String::from("a")])),
        ElementTree::parse("<a><b>")
    );
}

#[test]
fn closing_tag_without_opening() {
    assert_eq!(Err(ParseError::UnexpectedClosingTag(String::from("a"))), ElementTree::parse("</a>"));
    assert_eq!(Err(ParseError::UnexpectedClosingTag(String::from("a"))), ElementTree::parse("<a></a></a>"));
}

#[test]
fn second_top_level_element() {
    assert_eq!(Err(ParseError::MultipleRootElements), ElementTree::parse("<a></a><b></b>"));
    assert_eq!(Err(ParseError::MultipleRootElements), ElementTree::parse("<a/><b/>"));
}

#[test]
fn single_self_closing_element() {
    let tree = ElementTree::parse("<a/>").unwrap();
    assert_eq!(tree.root_id, 0);
    assert_eq!(names(&tree), vec!["a"]);
    assert_eq!(tree.elements[0].children, Vec::<usize>::new());
    assert_eq!(tree.elements[0].parent_id, None);
    assert_eq!(tree.elements[0].depth, 1);
}

#[test]
fn lexical_errors() {
    assert_eq!(Err(ParseError::InvalidSymbol('$')), ElementTree::parse("<a x$>"));
    assert_eq!(Err(ParseError::InvalidSymbol('=')), ElementTree::parse("<a =5>"));
    assert_eq!(Err(ParseError::InvalidSymbol('-')), ElementTree::parse("<a x=5->"));
    assert_eq!(Err(ParseError::MalformedSelfClose), ElementTree::parse("<a/b>"));
    assert_eq!(Err(ParseError::MalformedSelfClose), ElementTree::parse("<a x=1/"));
    assert_eq!(Err(ParseError::ExpectedOpenAngle), ElementTree::parse("a"));
    assert_eq!(Err(ParseError::ExpectedOpenAngle), ElementTree::parse("<a></a> b"));
    assert_eq!(Err(ParseError::EmptyTagName), ElementTree::parse("< a>"));
    assert_eq!(Err(ParseError::EmptyTagName), ElementTree::parse("<a></>"));
    assert_eq!(Err(ParseError::InvalidNameCharacter('1')), ElementTree::parse("<a1>"));
    assert_eq!(Err(ParseError::InvalidNameCharacter(' ')), ElementTree::parse("<a></a >"));
}

#[test]
fn first_error_wins() {
    assert_eq!(Err(ParseError::UnexpectedClosingTag(String::from("a"))), ElementTree::parse("</a><$>"));
    assert_eq!(Err(ParseError::InvalidNameCharacter('$')), ElementTree::parse("<$></a>"));
}

#[test]
fn empty_and_cut_off_documents() {
    assert_eq!(Err(ParseError::UnexpectedEndOfInput), ElementTree::parse(""));
    assert_eq!(Err(ParseError::UnexpectedEndOfInput), ElementTree::parse(" \n "));
    assert_eq!(Err(ParseError::UnexpectedEndOfInput), ElementTree::parse("<a"));
    assert_eq!(Err(ParseError::UnexpectedEndOfInput), ElementTree::parse("<a></a><b"));
    assert_eq!(Err(ParseError::UnexpectedEndOfInput), ElementTree::parse("<a x=1"));
    assert_eq!(Err(ParseError::UnexpectedEndOfInput), ElementTree::parse("<a></a"));
}

#[test]
fn whitespace_between_tags_and_unicode_names() {
    let tree = ElementTree::parse("\n  <été>\n\t<ß k=v2/>\n</été>\n").unwrap();
    assert_eq!(names(&tree), vec!["été", "ß"]);
    assert_eq!(tree.elements[1].attributes, vec![attr("k", Some("v2"))]);
}

#[test]
fn attribute_tokenizer_steps() {
    assert_eq!(Ok(AttributeEnding::Unfinished((attr("flag", None), "b=2>"))), Attribute::parse("  flag b=2>"));
    assert_eq!(Ok(AttributeEnding::RequiresClosing((attr("", None), "</a>"))), Attribute::parse("></a>"));
    assert_eq!(Ok(AttributeEnding::SelfClosing((attr("v", Some("")), " x"))), Attribute::parse("v=/> x"));
    assert_eq!(Err(ParseError::UnexpectedEndOfInput), Attribute::parse("key=val"));
    assert_eq!(Err(ParseError::UnexpectedEndOfInput), Attribute::parse("x"));
    assert_eq!(Ok(AttributeEnding::End), Attribute::parse("  \t"));
    assert_eq!(Err(ParseError::InvalidSymbol('"')), Attribute::parse("k=\"v\">"));
    assert!(attr("", None).is_empty());
    assert!(!attr("k", None).is_empty());
}

#[test]
fn tag_parser_cut_off() {
    assert_eq!(Err(ParseError::UnexpectedEndOfInput), Element::parse(0, "<abc"));
    assert_eq!(Err(ParseError::UnexpectedEndOfInput), Element::parse(0, "<a b=1"));
    assert_eq!(Err(ParseError::UnexpectedEndOfInput), Element::parse(0, "</a"));
    assert_eq!(Err(ParseError::UnexpectedEndOfInput), Element::parse(0, "<"));
    assert_eq!(Err(ParseError::ExpectedOpenAngle), Element::parse(0, ""));
}

#[test]
fn attribute_text() {
    assert_eq!(attr("name", Some("jester")).to_string(), "(name, jester)");
    assert_eq!(attr("flag", None).to_string(), "(flag)");
}

#[test]
fn tree_listing() {
    let tree = ElementTree::parse("<root><text width=5 bold><img/></text><p/></root>").unwrap();
    assert_eq!(tree.to_string(), "-> root\n--> text - (width, 5) (bold)\n---> img\n--> p\n");
    assert_eq!(ElementTree { root_id: 0, elements: Vec::new() }.to_string(), "");
    let mut outside = ElementTree::parse("<a><b/></a>").unwrap();
    outside.root_id = 2;
    assert_eq!(outside.to_string(), "");
}

#[test]
fn new_element_is_empty() {
    let e = Element::new();
    assert_eq!(e.id, 0);
    assert_eq!(e.name, "");
    assert!(e.attributes.is_empty() && e.children.is_empty());
    assert_eq!(e.parent_id, None);
    assert_eq!(e.depth, 0);
}

#[test]
fn owned_tree_listing() {
    let root = types::Element::new_root();
    assert_eq!(root.name, "root");
    assert_eq!(root.print(1), "root");
    let empty = types::Element::new();
    assert_eq!(empty.name, "");
    assert!(empty.attributes.is_empty() && empty.children.is_empty());

    let mut child = types::Element::new();
    child.name = String::from("a");
    child.attributes.push((String::from("x"), String::from("1")));
    let mut grandchild = types::Element::new();
    grandchild.name = String::from("b");
    child.children.push(grandchild);
    let mut top = types::Element::new_root();
    top.children.push(child);
    assert_eq!(top.print(1), "root\n  |\n  -->a, x=1\n    |\n    -->b\n\n");
}

#[test]
fn written_document_reads_back() {
    let tree = ElementTree::parse("<a x=1 y><b/><c k=v2 k=v3></c><d><e/></d></a>").unwrap();
    assert_eq!(names(&tree), vec!["a", "b", "c", "d", "e"]);
    let parents: Vec<Option<usize>> = tree.elements.iter().map(|e| e.parent_id).collect();
    assert_eq!(parents, vec![None, Some(0), Some(0), Some(0), Some(3)]);
    assert_eq!(tree.elements[0].children, vec![1, 2, 3]);
    assert_eq!(tree.elements[3].children, vec![4]);
    assert_eq!(tree.elements[0].attributes, vec![attr("x", Some("1")), attr("y", None)]);
    assert_eq!(tree.elements[2].attributes, vec![attr("k", Some("v2")), attr("k", Some("v3"))]);
}

#[test]
fn listing_does_not_parse_again() {
    let tree = ElementTree::parse("<root><a/></root>").unwrap();
    let text = tree.to_string();
    assert_eq!(text, "-> root\n--> a\n");
    assert_eq!(Err(ParseError::ExpectedOpenAngle), ElementTree::parse(&text));
}
