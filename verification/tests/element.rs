use nxml_rs::{Element, ElementRef, PrettyDisplay, Text};

fn sample() -> Element {
    Element::new("Entity")
        .with_attr("name", "x")
        .with_child(Element::new("Child").with_text("hello"))
        .with_child(Element::new("Other"))
        .with_child(Element::new("Child"))
}

#[test]
fn new_element_is_empty() {
    let e = Element::new("Entity");
    assert_eq!(e.name, "Entity");
    assert_eq!(e.text_content, "");
    assert!(e.attributes.is_empty());
    assert!(e.children.is_empty());
    let r = ElementRef::new("Entity");
    assert_eq!(r.name, "Entity");
    assert_eq!(r.text_content, "");
    assert!(r.attributes.is_empty());
    assert!(r.children.is_empty());
}

#[test]
fn attr_get_set_remove() {
    let mut e = Element::new("Entity");
    assert_eq!(e.attr("key"), None);
    e.set_attr("key", "value");
    e.set_attr("other", "o");
    assert_eq!(e.attr("key"), Some("value"));
    e.set_attr("key", "again");
    assert_eq!(e.attr("key"), Some("again"));
    assert_eq!(e.attributes.len(), 2);
    assert_eq!(e.to_string(), "<Entity key=\"again\" other=\"o\"/>");
    assert_eq!(e.remove_attr("key"), Some("again".to_string()));
    assert_eq!(e.remove_attr("key"), None);
    assert_eq!(e.to_string(), "<Entity other=\"o\"/>");
}

#[test]
fn borrowed_attr_get_set_remove() {
    let mut e = ElementRef::new("Entity");
    e.set_attr("a", "1");
    e.set_attr("b", "2");
    e.set_attr("c", "3");
    assert_eq!(e.remove_attr("b"), Some("2"));
    assert_eq!(e.remove_attr("b"), None);
    assert_eq!(e.to_string(), "<Entity a=\"1\" c=\"3\"/>");
    assert_eq!(e.attr("c"), Some("3"));
}

#[test]
fn first_child_by_name() {
    let e = sample();
    assert_eq!(e.child("Child").unwrap().text_content, "hello");
    assert_eq!(e.child("Other").unwrap().name, "Other");
    assert!(e.child("Missing").is_none());
}

#[test]
fn children_by_name() {
    let e = sample();
    let found = e.children("Child");
    assert_eq!(found.len(), 2);
    assert_eq!(found[0].text_content, "hello");
    assert_eq!(found[1].text_content, "");
    assert_eq!(e.children("Other").len(), 1);
    assert_eq!(e.children("Missing").len(), 0);
}

#[test]
fn builders_chain() {
    let e = ElementRef::new("Entity")
        .with_text("hello")
        .with_attr("key", "value")
        .with_child(ElementRef::new("Child"));
    assert_eq!(e.to_string(), "<Entity key=\"value\">hello<Child/></Entity>");
}

#[test]
fn compact_text() {
    assert_eq!(
        sample().to_string(),
        "<Entity name=\"x\"><Child>hello</Child><Other/><Child/></Entity>"
    );
}

#[test]
fn pretty_text() {
    let e = sample();
    assert_eq!(
        e.display().to_string(),
        "<Entity name=\"x\">\n    <Child>\n        hello\n    </Child>\n    <Other/>\n    <Child/>\n</Entity>"
    );
}

#[test]
fn indent_width_zero() {
    let e = Element::new("Entity").with_child(Element::new("Child"));
    assert_eq!(e.display().indent_width(0).to_string(), "<Entity>\n<Child/>\n</Entity>");
}

#[test]
fn line_separator_and_indent() {
    let e = Element::new("a").with_child(Element::new("b"));
    assert_eq!(
        e.display().line_separator("\r\n").indent_width(2).to_string(),
        "<a>\r\n  <b/>\r\n</a>"
    );
}

#[test]
fn no_autoclose() {
    let e = Element::new("Entity").with_child(Element::new("Child"));
    assert_eq!(
        e.display().compact().no_autoclose().to_string(),
        "<Entity><Child></Child></Entity>"
    );
}

#[test]
fn write_appends_at_an_indent() {
    let e = Element::new("a").with_text("t");
    let d: PrettyDisplay<Element> = e.display().indent_width(1);
    let mut out = String::from("x");
    d.write(&mut out, &e, 2);
    assert_eq!(out, "x  <a>\n   t\n  </a>");
}

#[test]
fn to_owned_copies_every_level() {
    let r = ElementRef::new("a")
        .with_attr("k", "v")
        .with_text("t")
        .with_child(ElementRef::new("b").with_child(ElementRef::new("c").with_attr("x", "y")));
    let o = r.to_owned();
    assert_eq!(o.name, "a");
    assert_eq!(o.text_content, "t");
    assert_eq!(o.attr("k"), Some("v"));
    assert_eq!(o.children[0].children[0].attr("x"), Some("y"));
    assert_eq!(o.to_string(), r.to_string());
    assert_eq!(o.as_ref(), r);
}

#[test]
fn clone_copies_every_level() {
    let e = sample();
    let copy = e.clone();
    assert_eq!(copy, e);
    assert_eq!(copy.to_string(), e.to_string());
    let r = ElementRef::new("a")
        .with_attr("k", "v")
        .with_text("t")
        .with_child(ElementRef::new("b").with_attr("x", "y"));
    let copy = r.clone();
    assert_eq!(copy, r);
    assert_eq!(copy.to_string(), "<a k=\"v\">t<b x=\"y\"/></a>");
}

#[test]
fn child_mut_changes_the_first_match() {
    let mut e = sample();
    e.child_mut("Child").unwrap().text_content = "world".into();
    assert_eq!(e.child("Child").unwrap().text_content, "world");
    assert_eq!(e.children("Child")[1].text_content, "");
    assert!(e.child_mut("Missing").is_none());
    assert_eq!(
        e.to_string(),
        "<Entity name=\"x\"><Child>world</Child><Other/><Child/></Entity>"
    );
    let mut r = ElementRef::new("a").with_child(ElementRef::new("b"));
    r.child_mut("b").unwrap().set_attr("k", "v");
    assert_eq!(r.to_string(), "<a><b k=\"v\"/></a>");
}

#[test]
fn text_of_a_borrowing_element_is_shown() {
    let r = ElementRef::new("a").with_text("some text");
    assert_eq!(r.display().no_autoclose().to_string(), "<a>\n    some text\n</a>");
    assert_eq!(ElementRef::new("a").display().no_autoclose().to_string(), "<a></a>");
}

#[test]
fn operators_reach_children_attributes_and_text() {
    let e = Element::new("Entity").with_attr("key", "value").with_child(
        Element::new("Child").with_child(Element::new("Grandchild").with_text("hello")),
    );
    assert_eq!(&e / "Child" / "Grandchild" % Text, "hello");
    assert_eq!(&e % "key", "value");
    assert_eq!((&e / "Child").name, "Child");
    let r = e.as_ref();
    assert_eq!(&r / "Child" / "Grandchild" % Text, "hello");
    assert_eq!(&r % "key", "value");
    assert_eq!(&r % Text, "");
}
