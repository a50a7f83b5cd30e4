use nxml_rs::parser::Parser;
use nxml_rs::{parse, parse_lenient, Element, ElementRef, NxmlErr};

#[test]
fn parse_single_quote() {
    let err = parse("\"").unwrap_err();
    assert!(matches!(err.err, NxmlErr::NoOpeningSymbolFound));
}

#[test]
fn self_closing_and_explicit_close_agree() {
    let a = parse("<A/>").unwrap();
    let b = parse("<A></A>").unwrap();
    for e in [&a, &b] {
        assert_eq!(e.name, "A");
        assert_eq!(e.attributes.len(), 0);
        assert_eq!(e.children.len(), 0);
        assert_eq!(e.text_content, "");
    }
    assert_eq!(a, b);
}

#[test]
fn attributes_in_order() {
    let e = parse("<A k=\"v\" k2=\"v2\"/>").unwrap();
    let entries: Vec<(&str, &str)> = e.attributes.iter().map(|(k, v)| (*k, *v)).collect();
    assert_eq!(entries, vec![("k", "v"), ("k2", "v2")]);
    assert_eq!(e.attr("k"), Some("v"));
    assert_eq!(e.attr("k2"), Some("v2"));
    assert_eq!(e.attr("k3"), None);
}

#[test]
fn bare_attribute_values() {
    let e = parse("<A k=v other = 12 />").unwrap();
    assert_eq!(e.attr("k"), Some("v"));
    assert_eq!(e.attr("other"), Some("12"));
    assert_eq!(e.attributes.len(), 2);
}

#[test]
fn text_runs_are_joined_by_one_space() {
    let e = parse("<A>hello \"world\"</A>").unwrap();
    assert_eq!(e.text_content, "hello world");
}

#[test]
fn three_text_runs() {
    let e = parse("<A>one   two\n three</A>").unwrap();
    assert_eq!(e.text_content, "one two three");
}

#[test]
fn punctuation_in_content_is_text() {
    let e = parse("<A>a = b</A>").unwrap();
    assert_eq!(e.text_content, "a = b");
}

#[test]
fn duplicate_keys_last_wins() {
    let e = parse("<A k=\"1\" k=\"2\"/>").unwrap();
    assert_eq!(e.attr("k"), Some("2"));
    assert_eq!(e.attributes.len(), 1);
}

#[test]
fn duplicate_key_keeps_its_place() {
    let e = parse("<A k=\"1\" j=\"x\" k=\"2\"/>").unwrap();
    let entries: Vec<(&str, &str)> = e.attributes.iter().map(|(k, v)| (*k, *v)).collect();
    assert_eq!(entries, vec![("k", "2"), ("j", "x")]);
}

#[test]
fn lenient_recovery_on_mismatched_closing_tag() {
    let (e, errors) = parse_lenient("<A><B></A>");
    assert_eq!(e.name, "A");
    assert_eq!(e.children.len(), 1);
    assert_eq!(e.children[0].name, "B");
    assert_eq!(errors.len(), 1);
    match &errors[0].err {
        NxmlErr::MismatchedClosingTag { expected, got } => {
            assert_eq!(expected, "B");
            assert_eq!(got, "A");
        }
        other => panic!("unexpected error {:?}", other),
    }
    assert_eq!(errors[0].at.line, 1);
    assert_eq!(errors[0].at.column, 10);
}

#[test]
fn strict_fails_with_the_first_lenient_error() {
    let text = "<A b c=\"d\"><B></C></A>";
    let (_, errors) = parse_lenient(text);
    assert!(errors.len() >= 2);
    let err = parse(text).unwrap_err();
    assert_eq!(format!("{:?}", err.err), format!("{:?}", errors[0].err));
    assert_eq!(err.at.line, errors[0].at.line);
    assert_eq!(err.at.column, errors[0].at.column);
}

#[test]
fn strict_and_lenient_agree_on_good_input() {
    let text = "<Entity name=\"x\"><Child a=\"1\"/>some text<Other>more</Other></Entity>";
    let strict = parse(text).unwrap();
    let (lenient, errors) = parse_lenient(text);
    assert!(errors.is_empty());
    assert_eq!(strict, lenient);
}

#[test]
fn missing_equals_sign() {
    let err = parse("<A b c=\"d\"/>").unwrap_err();
    match err.err {
        NxmlErr::MissingEqualsSign { tag, attribute } => {
            assert_eq!(tag, "A");
            assert_eq!(attribute, "b");
        }
        other => panic!("unexpected error {:?}", other),
    }
    assert_eq!(err.at.line, 1);
    assert_eq!(err.at.column, 7);
}

#[test]
fn missing_equals_sign_drops_the_attribute() {
    let (e, errors) = parse_lenient("<A b />");
    assert_eq!(e.name, "A");
    assert_eq!(e.attributes.len(), 0);
    assert_eq!(errors.len(), 1);
    assert!(matches!(errors[0].err, NxmlErr::MissingEqualsSign { .. }));
}

#[test]
fn missing_attribute_value() {
    let err = parse("<A b=>").unwrap_err();
    match err.err {
        NxmlErr::MissingAttributeValue { tag, attribute } => {
            assert_eq!(tag, "A");
            assert_eq!(attribute, "b");
        }
        other => panic!("unexpected error {:?}", other),
    }
}

#[test]
fn missing_element_name() {
    let err = parse("<>").unwrap_err();
    assert!(matches!(err.err, NxmlErr::MissingElementName));
    let (e, errors) = parse_lenient("< ></A>");
    assert_eq!(e.name, "");
    assert_eq!(e.text_content, "A >");
    assert_eq!(errors.len(), 1);
    assert!(matches!(errors[0].err, NxmlErr::MissingElementName));
    assert_eq!((errors[0].at.line, errors[0].at.column), (1, 4));
}

#[test]
fn no_opening_symbol() {
    let err = parse("A/>").unwrap_err();
    assert!(matches!(err.err, NxmlErr::NoOpeningSymbolFound));
    assert_eq!(err.at.line, 1);
    assert_eq!(err.at.column, 2);
    let err = parse("").unwrap_err();
    assert!(matches!(err.err, NxmlErr::NoOpeningSymbolFound));
}

#[test]
fn no_closing_symbol() {
    let err = parse("<A></A <B/>").unwrap_err();
    match err.err {
        NxmlErr::NoClosingSymbolFound { element } => assert_eq!(element, "A"),
        other => panic!("unexpected error {:?}", other),
    }
}

#[test]
fn mismatched_closing_tag_names_what_it_got() {
    let err = parse("<A></>").unwrap_err();
    match err.err {
        NxmlErr::MismatchedClosingTag { expected, got } => {
            assert_eq!(expected, "A");
            assert_eq!(got, ">");
        }
        other => panic!("unexpected error {:?}", other),
    }
}

#[test]
fn end_of_input_closes_the_element() {
    let e = parse("<A k=\"v\"").unwrap();
    assert_eq!(e.name, "A");
    assert_eq!(e.attr("k"), Some("v"));
    let e = parse("<A><B>text").unwrap();
    assert_eq!(e.children.len(), 1);
    assert_eq!(e.children[0].text_content, "text");
}

#[test]
fn comments_are_passed_over() {
    let e = parse("<?xml version=\"1.0\"?>\n<!-- a <b> c -->\n<!DOCTYPE x>\n<A><!-- no --><B/></A>")
        .unwrap();
    assert_eq!(e.name, "A");
    assert_eq!(e.children.len(), 1);
    assert_eq!(e.children[0].name, "B");
    assert_eq!(e.text_content, "");
}

#[test]
fn error_position_counts_lines() {
    let err = parse("<A>\n  <B>\n  </C>\n</A>").unwrap_err();
    assert!(matches!(err.err, NxmlErr::MismatchedClosingTag { .. }));
    assert_eq!(err.at.line, 3);
    assert_eq!(err.at.column, 6);
}

#[test]
fn mixed_text_and_children() {
    let e = parse("<A>one<B/>two<C>three</C>four</A>").unwrap();
    assert_eq!(e.text_content, "one two four");
    assert_eq!(e.children.len(), 2);
    assert_eq!(e.children[0].name, "B");
    assert_eq!(e.children[1].name, "C");
    assert_eq!(e.children[1].text_content, "three");
}

#[test]
fn lone_slash_starts_the_content() {
    let e = parse("<A / >text</A>").unwrap();
    assert_eq!(e.name, "A");
    assert_eq!(e.text_content, "> text");
}

fn nested(depth: usize) -> String {
    let mut text = String::new();
    for level in 0..depth {
        text.push_str(&format!("<L{} depth=\"{}\">", level, level));
        text.push_str("<Leaf/>");
    }
    for level in (0..depth).rev() {
        text.push_str("<Leaf/>");
        text.push_str(&format!("</L{}>", level));
    }
    text
}

#[test]
fn nesting_is_counted_at_every_level() {
    let depth = 40;
    let text = nested(depth);
    let root = parse(&text).unwrap();
    let mut node: &ElementRef = &root;
    for level in 0..depth {
        assert_eq!(node.name, format!("L{}", level));
        assert_eq!(node.attr("depth"), Some(level.to_string().as_str()));
        assert_eq!(node.children("Leaf").len(), 2);
        if level + 1 < depth {
            assert_eq!(node.children.len(), 3);
            let next = format!("L{}", level + 1);
            assert_eq!(node.children(&next).len(), 1);
            node = node.child(&next).unwrap();
        } else {
            assert_eq!(node.children.len(), 2);
        }
    }
}

#[test]
fn nesting_round_trips() {
    let text = nested(25);
    let root = parse(&text).unwrap();
    let printed = root.to_string();
    assert_eq!(printed, text);
    let again = parse(&printed).unwrap();
    assert_eq!(again, root);
    let pretty = root.display().to_string();
    let again = parse(&pretty).unwrap();
    assert_eq!(again, root);
}

#[test]
fn round_trip_keeps_the_tree() {
    let text = "<Entity name=\"a b\" tag=\"x\"><Comp k=\"v\">some text here<Inner/></Comp><Other/></Entity>";
    let tree = parse(text).unwrap();
    let printed = tree.to_string();
    assert_eq!(printed, text);
    let again = parse(&printed).unwrap();
    assert_eq!(again, tree);
    let entries: Vec<(&str, &str)> = again.attributes.iter().map(|(k, v)| (*k, *v)).collect();
    assert_eq!(entries, vec![("name", "a b"), ("tag", "x")]);
}

#[test]
fn owned_and_borrowed_agree() {
    let text = "<Entity name=\"x\"><Child a=\"1\"/>some text<Other>more</Other></Entity>";
    let tree = parse(text).unwrap();
    let owned: Element = tree.to_owned();
    assert_eq!(owned.name, "Entity");
    assert_eq!(owned.attr("name"), Some("x"));
    assert_eq!(owned.children.len(), 2);
    assert_eq!(owned.children[1].text_content, "more");
    assert_eq!(owned.to_string(), tree.to_string());
    let back = owned.as_ref();
    assert_eq!(back, tree);
}

#[test]
fn plain_trees_come_back_from_their_compact_text() {
    let tree = Element::new("Entity")
        .with_attr("name", "a b")
        .with_attr("tags", "x,y")
        .with_text("some words here")
        .with_child(Element::new("Leaf"))
        .with_child(
            Element::new("Inner").with_text("word").with_child(Element::new("Deep").with_attr("k", "")),
        );
    let text = tree.to_string();
    let read = parse(&text).unwrap();
    assert_eq!(read.to_owned(), tree);
    let text = tree.display().compact().no_autoclose().to_string();
    let read = parse(&text).unwrap();
    assert_eq!(read.to_owned(), tree);
}

#[test]
fn a_blank_at_the_edge_of_a_text_does_not_come_back() {
    let tree = parse("<A>\" x\"</A>").unwrap();
    assert_eq!(tree.text_content, " x");
    let text = tree.to_string();
    assert_eq!(text, "<A> x</A>");
    let again = parse(&text).unwrap();
    assert_eq!(again.text_content, "x");
}

#[test]
fn error_messages() {
    let err = parse("<A></B>").unwrap_err();
    assert_eq!(
        err.to_string(),
        "Closing element is in wrong order. Expected '</A>', but instead got 'B' [1:7]"
    );
    assert_eq!(
        NxmlErr::NoClosingSymbolFound { element: "A".to_string() }.to_string(),
        "No closing '>' found for ending element </A>"
    );
    assert_eq!(
        NxmlErr::NoOpeningSymbolFound.to_string(),
        "Couldn't find a '<' to start parsing with"
    );
    assert_eq!(
        NxmlErr::MissingEqualsSign { tag: "t".to_string(), attribute: "a".to_string() }.to_string(),
        "parsing tag 't', attribute 'a' - expected '='"
    );
    assert_eq!(
        NxmlErr::MissingAttributeValue { tag: "t".to_string(), attribute: "a".to_string() }
            .to_string(),
        "parsing tag 't', attribute 'a' - expected a \"string\" after =, but none found"
    );
    assert_eq!(
        NxmlErr::MissingElementName.to_string(),
        "Expected a name of the element after <"
    );
}

#[test]
fn long_text_is_read_in_one_pass() {
    let mut text = String::from("<Root>");
    for i in 0..50_000 {
        text.push_str(&format!("<Item id=\"{}\" name=\"n{}\">some words<Sub/></Item>", i, i));
    }
    text.push_str("</Root>");
    let root = parse(&text).unwrap();
    assert_eq!(root.children.len(), 50_000);
    assert_eq!(root.children[49_999].attr("name"), Some("n49999"));
    assert_eq!(root.children[123].text_content, "some words");
    assert_eq!(root.children("Item").len(), 50_000);
}

#[test]
fn many_text_runs_are_joined() {
    let mut text = String::from("<A>");
    for _ in 0..20_000 {
        text.push_str("word ");
    }
    text.push_str("</A>");
    let e = parse(&text).unwrap();
    assert_eq!(e.text_content.len(), 20_000 * 5 - 1);
    assert!(e.text_content.starts_with("word word word"));
}

#[test]
fn report_collects_or_fails() {
    let mut strict = Parser::new("ab");
    let err = strict.report(NxmlErr::MissingElementName).unwrap_err();
    assert!(matches!(err.err, NxmlErr::MissingElementName));
    assert_eq!((err.at.line, err.at.column), (1, 1));
    let mut lenient = Parser::new("<A").lenient();
    assert!(lenient.report(NxmlErr::NoOpeningSymbolFound).is_ok());
    let e = lenient.parse().unwrap();
    assert_eq!(e.name, "A");
}

#[test]
fn plain_trees_come_back_from_any_layout() {
    let tree = Element::new("Entity")
        .with_attr("name", "a b")
        .with_text("some = words > here /")
        .with_child(Element::new("Leaf"))
        .with_child(
            Element::new("Inner").with_text("word").with_child(Element::new("Deep").with_attr("k", "")),
        )
        .with_child(Element::new("Last").with_text("/"));
    let texts = [
        tree.display().to_string(),
        tree.display().no_autoclose().to_string(),
        tree.display().indent_width(2).line_separator("\r\n").to_string(),
        tree.display().indent_width(0).line_separator("\t \n").to_string(),
        tree.display().indent_width(3).line_separator("").to_string(),
        tree.display().compact().no_autoclose().to_string(),
    ];
    for text in texts.iter() {
        let read = parse(text).unwrap();
        assert_eq!(read.to_owned(), tree);
    }
}
