use sxd_document::dom::{ChildOfElement as DomChild, Document, Element};
use sxd_document::Package;
use sxd_html::error::decimal_text;
use sxd_html::{
    child_of_element_remove_from_parent, new_package, Arena, node_or_text_into_child_of_element, node_or_text_into_child_of_root,
    parent_of_child_append_node_or_text, qualname_as_qname, qualname_from_qname, Attribute, ChildOfElement,
    ChildOfRoot, DocHtmlSink, Error, Handle, NodeOrText, ParentOfChild, QName, QualName, QuirksMode, Unsupported,
};

fn name(local: &str) -> QualName {
    QualName { ns: String::new(), local: local.to_string() }
}

fn attr(local: &str, value: &str) -> Attribute {
    Attribute { name: name(local), value: value.to_string() }
}

fn text(s: &str) -> NodeOrText<'static> {
    NodeOrText::AppendText(s.to_string())
}

fn node<'d>(h: &Handle<'d>) -> NodeOrText<'d> {
    NodeOrText::AppendNode(h.clone())
}

fn element<'d>(h: &Handle<'d>) -> Element<'d> {
    match h {
        Handle::Element(e, _) => *e,
        _ => panic!("not an element"),
    }
}

/// The children of an element, each as a short word: an element by its
/// local name, text by its characters in quotes, a comment in brackets.
fn shape(e: Element) -> Vec<String> {
    e.children()
        .into_iter()
        .map(|c| match c {
            DomChild::Element(e) => e.name().local_part().to_string(),
            DomChild::Text(t) => format!("'{}'", t.text()),
            DomChild::Comment(c) => format!("[{}]", c.text()),
            DomChild::ProcessingInstruction(p) => format!("?{}", p.target()),
        })
        .collect()
}

fn root_shape(doc: Document) -> Vec<String> {
    doc.root()
        .children()
        .into_iter()
        .map(|c| match c {
            sxd_document::dom::ChildOfRoot::Element(e) => e.name().local_part().to_string(),
            sxd_document::dom::ChildOfRoot::Comment(c) => format!("[{}]", c.text()),
            sxd_document::dom::ChildOfRoot::ProcessingInstruction(p) => format!("?{}", p.target()),
        })
        .collect()
}

#[test]
fn new_sink_has_no_diagnostics() {
    let mut package = Package::new();
    let sink = DocHtmlSink::new(&mut package);
    assert_eq!(0, sink.finish().len());
}

#[test]
fn parse_error_is_tagged_with_current_line() {
    let mut package = Package::new();
    let mut sink = DocHtmlSink::new(&mut package);
    sink.parse_error("first".to_string());
    sink.set_current_line(3);
    sink.parse_error("second".to_string());
    sink.parse_error("third".to_string());
    sink.set_current_line(7);
    sink.parse_error("fourth".to_string());
    let errors = sink.finish();
    let seen: Vec<(u64, String)> = errors.iter().map(|e| (e.line(), e.message().to_string())).collect();
    assert_eq!(
        vec![
            (0, "first".to_string()),
            (3, "second".to_string()),
            (3, "third".to_string()),
            (7, "fourth".to_string())
        ],
        seen
    );
}

#[test]
fn error_text_has_line_and_message() {
    assert_eq!("sxd_html error at line 12 : bad tag", Error::new(12, "bad tag".to_string()).to_string());
    assert_eq!("sxd_html error at line 0 : ", Error::new(0, String::new()).to_string());
    assert_eq!(
        "sxd_html error at line 18446744073709551615 : x",
        Error::new(u64::MAX, "x".to_string()).to_string()
    );
}

#[test]
fn decimal_text_of_numbers() {
    assert_eq!("0", decimal_text(0));
    assert_eq!("9", decimal_text(9));
    assert_eq!("10", decimal_text(10));
    assert_eq!("1203", decimal_text(1203));
    assert_eq!("18446744073709551615", decimal_text(u64::MAX));
}

#[test]
fn empty_namespace_becomes_absent() {
    let q = qualname_as_qname(&name("div"));
    assert_eq!(None, q.namespace_uri);
    assert_eq!("div", q.local_part);
}

#[test]
fn namespace_is_kept() {
    let q = qualname_as_qname(&QualName { ns: "http://www.w3.org/1999/xhtml".to_string(), local: "p".to_string() });
    assert_eq!(Some("http://www.w3.org/1999/xhtml".to_string()), q.namespace_uri);
    assert_eq!("p", q.local_part);
}

#[test]
fn absent_namespace_becomes_empty() {
    let q = qualname_from_qname(QName { namespace_uri: None, local_part: "a".to_string() });
    assert_eq!("", q.ns);
    assert_eq!("a", q.local);
    let q = qualname_from_qname(QName { namespace_uri: Some("urn:x".to_string()), local_part: "b".to_string() });
    assert_eq!("urn:x", q.ns);
    assert_eq!("b", q.local);
}

#[test]
fn names_round_trip() {
    for ns in [None, Some("urn:x".to_string()), Some("http://www.w3.org/2000/svg".to_string())] {
        let q = QName { namespace_uri: ns.clone(), local_part: "circle".to_string() };
        let back = qualname_as_qname(&qualname_from_qname(q));
        assert_eq!(ns, back.namespace_uri);
        assert_eq!("circle", back.local_part);
    }
    for ns in ["", "urn:y"] {
        let q = QualName { ns: ns.to_string(), local: "rect".to_string() };
        let back = qualname_from_qname(qualname_as_qname(&q));
        assert_eq!(ns, back.ns);
        assert_eq!("rect", back.local);
    }
}

#[test]
fn get_document_is_the_document() {
    let mut package = Package::new();
    let mut sink = DocHtmlSink::new(&mut package);
    assert!(matches!(sink.get_document(), Handle::Document));
}

#[test]
fn create_element_sets_name_and_attributes() {
    let mut package = Package::new();
    let mut sink = DocHtmlSink::new(&mut package);
    let ns = "http://www.w3.org/1999/xhtml";
    let h = sink.create_element(
        QualName { ns: ns.to_string(), local: "a".to_string() },
        vec![attr("href", "x"), attr("id", "one"), attr("href", "y")],
    );
    let e = element(&h);
    assert_eq!(Some(ns), e.name().namespace_uri());
    assert_eq!("a", e.name().local_part());
    assert_eq!(Some("y"), e.attribute_value("href"));
    assert_eq!(Some("one"), e.attribute_value("id"));
    assert_eq!(2, e.attributes().len());
    assert!(e.parent().is_none());
    assert_eq!(0, e.children().len());
    let cached = sink.elem_name(&h);
    assert_eq!(ns, cached.ns);
    assert_eq!("a", cached.local);
}

#[test]
fn create_element_without_namespace() {
    let mut package = Package::new();
    let mut sink = DocHtmlSink::new(&mut package);
    let h = sink.create_element(name("div"), vec![]);
    assert_eq!(None, element(&h).name().namespace_uri());
    assert_eq!(0, element(&h).attributes().len());
}

#[test]
fn create_comment_holds_text() {
    let mut package = Package::new();
    let mut sink = DocHtmlSink::new(&mut package);
    match sink.create_comment(" note ") {
        Handle::Comment(c) => {
            assert_eq!(" note ", c.text());
            assert!(c.parent().is_none());
        }
        _ => panic!("not a comment"),
    }
}

#[test]
fn create_pi_empty_data_is_no_data() {
    let mut package = Package::new();
    let mut sink = DocHtmlSink::new(&mut package);
    match sink.create_pi("xml-stylesheet", "") {
        Handle::ProcessingInstruction(p) => {
            assert_eq!("xml-stylesheet", p.target());
            assert_eq!(None, p.value());
        }
        _ => panic!("not a processing instruction"),
    }
    match sink.create_pi("target", "some data") {
        Handle::ProcessingInstruction(p) => {
            assert_eq!("target", p.target());
            assert_eq!(Some("some data"), p.value());
        }
        _ => panic!("not a processing instruction"),
    }
}

#[test]
fn consecutive_text_is_one_text_node() {
    let mut package = Package::new();
    let mut sink = DocHtmlSink::new(&mut package);
    let div = sink.create_element(name("div"), vec![]);
    for fragment in ["hel", "lo", "", " wor", "ld"] {
        sink.append(&div, text(fragment));
    }
    assert_eq!(vec!["'hello world'"], shape(element(&div)));
}

#[test]
fn text_after_text_keeps_the_text_node() {
    let mut package = Package::new();
    let mut sink = DocHtmlSink::new(&mut package);
    let div = sink.create_element(name("div"), vec![]);
    sink.append(&div, text("a"));
    let first = element(&div).children()[0].text().unwrap();
    sink.append(&div, text("b"));
    let children = element(&div).children();
    assert_eq!(1, children.len());
    assert_eq!(first, children[0].text().unwrap());
    assert_eq!("ab", first.text());
}

#[test]
fn text_is_not_joined_across_an_element() {
    let mut package = Package::new();
    let mut sink = DocHtmlSink::new(&mut package);
    let div = sink.create_element(name("div"), vec![]);
    let br = sink.create_element(name("br"), vec![]);
    sink.append(&div, text("hello"));
    sink.append(&div, node(&br));
    sink.append(&div, text("b"));
    sink.append(&div, text("ye"));
    assert_eq!(vec!["'hello'", "br", "'bye'"], shape(element(&div)));
}

#[test]
fn text_is_not_joined_to_a_comment() {
    let mut package = Package::new();
    let mut sink = DocHtmlSink::new(&mut package);
    let div = sink.create_element(name("div"), vec![]);
    let c = sink.create_comment("c");
    sink.append(&div, node(&c));
    sink.append(&div, text("t"));
    assert_eq!(vec!["[c]", "'t'"], shape(element(&div)));
}

#[test]
fn appending_a_node_moves_it() {
    let mut package = Package::new();
    let mut sink = DocHtmlSink::new(&mut package);
    let a = sink.create_element(name("a"), vec![]);
    let b = sink.create_element(name("b"), vec![]);
    let x = sink.create_element(name("x"), vec![]);
    let y = sink.create_element(name("y"), vec![]);
    sink.append(&a, node(&x));
    sink.append(&a, node(&y));
    sink.append(&b, node(&x));
    assert_eq!(vec!["y"], shape(element(&a)));
    assert_eq!(vec!["x"], shape(element(&b)));
    sink.append(&b, node(&y));
    sink.append(&b, node(&x));
    assert_eq!(0, element(&a).children().len());
    assert_eq!(vec!["y", "x"], shape(element(&b)));
}

#[test]
fn append_under_the_document() {
    let mut package = Package::new();
    let mut sink = DocHtmlSink::new(&mut package);
    let doc = sink.get_document();
    let c = sink.create_comment("c");
    let html = sink.create_element(name("html"), vec![]);
    let pi = sink.create_pi("p", "d");
    sink.append(&doc, node(&c));
    sink.append(&doc, node(&html));
    sink.append(&doc, node(&pi));
    assert_eq!(vec!["[c]", "html", "?p"], root_shape(element(&html).document()));
}

#[test]
fn the_document_keeps_one_element() {
    let mut package = Package::new();
    let mut sink = DocHtmlSink::new(&mut package);
    let doc = sink.get_document();
    let c = sink.create_comment("c");
    let first = sink.create_element(name("first"), vec![]);
    let second = sink.create_element(name("second"), vec![]);
    sink.append(&doc, node(&first));
    sink.append(&doc, node(&c));
    sink.append(&doc, node(&second));
    assert_eq!(vec!["[c]", "second"], root_shape(element(&second).document()));
    assert_eq!(0, sink.finish().len());
    assert_eq!(vec!["[c]", "second"], root_shape(package.as_document()));
}

#[test]
fn insert_before_sibling_keeps_order() {
    let mut package = Package::new();
    let mut sink = DocHtmlSink::new(&mut package);
    let parent = sink.create_element(name("parent"), vec![]);
    let a = sink.create_element(name("a"), vec![]);
    let b = sink.create_element(name("b"), vec![]);
    let c = sink.create_element(name("c"), vec![]);
    let x = sink.create_element(name("x"), vec![]);
    sink.append(&parent, node(&a));
    sink.append(&parent, node(&b));
    sink.append(&parent, node(&c));
    sink.append_before_sibling(&b, node(&x));
    assert_eq!(vec!["a", "x", "b", "c"], shape(element(&parent)));
    assert_eq!(Some(element(&parent)), element(&x).parent().and_then(|p| p.element()));
}

#[test]
fn insert_before_first_and_last_child() {
    let mut package = Package::new();
    let mut sink = DocHtmlSink::new(&mut package);
    let parent = sink.create_element(name("parent"), vec![]);
    let a = sink.create_element(name("a"), vec![]);
    let b = sink.create_element(name("b"), vec![]);
    let x = sink.create_comment("x");
    let y = sink.create_element(name("y"), vec![]);
    sink.append(&parent, node(&a));
    sink.append(&parent, node(&b));
    sink.append_before_sibling(&a, node(&x));
    assert_eq!(vec!["[x]", "a", "b"], shape(element(&parent)));
    sink.append_before_sibling(&b, node(&y));
    assert_eq!(vec!["[x]", "a", "y", "b"], shape(element(&parent)));
}

#[test]
fn inserted_text_joins_the_text_before() {
    let mut package = Package::new();
    let mut sink = DocHtmlSink::new(&mut package);
    let parent = sink.create_element(name("parent"), vec![]);
    let a = sink.create_element(name("a"), vec![]);
    let b = sink.create_element(name("b"), vec![]);
    sink.append(&parent, node(&a));
    sink.append(&parent, text("t"));
    sink.append(&parent, node(&b));
    sink.append(&parent, text("u"));
    sink.append_before_sibling(&b, text("x"));
    assert_eq!(vec!["a", "'tx'", "b", "'u'"], shape(element(&parent)));
    sink.append_before_sibling(&a, text("first"));
    assert_eq!(vec!["'first'", "a", "'tx'", "b", "'u'"], shape(element(&parent)));
}

#[test]
fn text_after_the_sibling_is_joined_when_put_back() {
    let mut package = Package::new();
    let mut sink = DocHtmlSink::new(&mut package);
    let parent = sink.create_element(name("parent"), vec![]);
    let b = sink.create_element(name("b"), vec![]);
    let x = sink.create_element(name("x"), vec![]);
    let other = sink.create_element(name("other"), vec![]);
    sink.append(&parent, node(&b));
    sink.append(&parent, text("u"));
    sink.append(&other, text("v"));
    let v = element(&other).children()[0].text().unwrap();
    sink.append(&parent, NodeOrText::AppendNode(Handle::Text(v)));
    assert_eq!(vec!["b", "'u'", "'v'"], shape(element(&parent)));
    sink.append_before_sibling(&b, node(&x));
    assert_eq!(vec!["x", "b", "'uv'"], shape(element(&parent)));
}

#[test]
fn inserting_a_later_sibling_leaves_the_order() {
    let mut package = Package::new();
    let mut sink = DocHtmlSink::new(&mut package);
    let parent = sink.create_element(name("parent"), vec![]);
    let a = sink.create_element(name("a"), vec![]);
    let b = sink.create_element(name("b"), vec![]);
    let c = sink.create_element(name("c"), vec![]);
    sink.append(&parent, node(&a));
    sink.append(&parent, node(&b));
    sink.append(&parent, node(&c));
    sink.append_before_sibling(&a, node(&c));
    assert_eq!(vec!["a", "b", "c"], shape(element(&parent)));
    sink.append_before_sibling(&c, node(&a));
    assert_eq!(vec!["b", "a", "c"], shape(element(&parent)));
}

#[test]
fn insert_before_sibling_moves_from_another_parent() {
    let mut package = Package::new();
    let mut sink = DocHtmlSink::new(&mut package);
    let parent = sink.create_element(name("parent"), vec![]);
    let other = sink.create_element(name("other"), vec![]);
    let a = sink.create_element(name("a"), vec![]);
    let x = sink.create_element(name("x"), vec![]);
    let y = sink.create_element(name("y"), vec![]);
    sink.append(&parent, node(&a));
    sink.append(&other, node(&x));
    sink.append(&other, node(&y));
    sink.append_before_sibling(&a, node(&x));
    assert_eq!(vec!["x", "a"], shape(element(&parent)));
    assert_eq!(vec!["y"], shape(element(&other)));
}

#[test]
fn insert_before_sibling_under_the_document() {
    let mut package = Package::new();
    let mut sink = DocHtmlSink::new(&mut package);
    let doc = sink.get_document();
    let c1 = sink.create_comment("one");
    let html = sink.create_element(name("html"), vec![]);
    let c0 = sink.create_comment("zero");
    sink.append(&doc, node(&c1));
    sink.append(&doc, node(&html));
    sink.append_before_sibling(&c1, node(&c0));
    assert_eq!(vec!["[zero]", "[one]", "html"], root_shape(element(&html).document()));
    let c2 = sink.create_comment("two");
    sink.append_before_sibling(&html, node(&c2));
    assert_eq!(vec!["[zero]", "[one]", "[two]", "html"], root_shape(element(&html).document()));
}

#[test]
fn add_attrs_if_missing_keeps_what_is_there() {
    let mut package = Package::new();
    let mut sink = DocHtmlSink::new(&mut package);
    let h = sink.create_element(name("div"), vec![attr("class", "foo")]);
    sink.add_attrs_if_missing(&h, vec![attr("class", "bar"), attr("id", "baz")]);
    let e = element(&h);
    assert_eq!(Some("foo"), e.attribute_value("class"));
    assert_eq!(Some("baz"), e.attribute_value("id"));
    assert_eq!(2, e.attributes().len());
}

#[test]
fn add_attrs_if_missing_takes_the_first_of_a_name() {
    let mut package = Package::new();
    let mut sink = DocHtmlSink::new(&mut package);
    let h = sink.create_element(name("div"), vec![]);
    sink.add_attrs_if_missing(&h, vec![attr("id", "one"), attr("id", "two"), attr("title", "")]);
    let e = element(&h);
    assert_eq!(Some("one"), e.attribute_value("id"));
    assert_eq!(Some(""), e.attribute_value("title"));
    sink.add_attrs_if_missing(&h, vec![]);
    assert_eq!(2, e.attributes().len());
}

#[test]
fn add_attrs_if_missing_tells_namespaces_apart() {
    let mut package = Package::new();
    let mut sink = DocHtmlSink::new(&mut package);
    let h = sink.create_element(name("div"), vec![attr("href", "plain")]);
    let linked = Attribute {
        name: QualName { ns: "http://www.w3.org/1999/xlink".to_string(), local: "href".to_string() },
        value: "linked".to_string(),
    };
    sink.add_attrs_if_missing(&h, vec![linked]);
    let e = element(&h);
    assert_eq!(Some("plain"), e.attribute_value("href"));
    assert_eq!(Some("linked"), e.attribute_value(("http://www.w3.org/1999/xlink", "href")));
}

#[test]
fn remove_from_parent_detaches() {
    let mut package = Package::new();
    let mut sink = DocHtmlSink::new(&mut package);
    let parent = sink.create_element(name("parent"), vec![]);
    let a = sink.create_element(name("a"), vec![]);
    let b = sink.create_element(name("b"), vec![]);
    let c = sink.create_element(name("c"), vec![]);
    let inner = sink.create_element(name("inner"), vec![]);
    sink.append(&parent, node(&a));
    sink.append(&parent, node(&b));
    sink.append(&parent, node(&c));
    sink.append(&b, node(&inner));
    sink.remove_from_parent(&b);
    assert_eq!(vec!["a", "c"], shape(element(&parent)));
    assert!(element(&b).parent().is_none());
    assert_eq!(vec!["inner"], shape(element(&b)));
    assert_eq!(vec![DomChild::Element(element(&c))], element(&a).following_siblings());
    assert_eq!(vec![DomChild::Element(element(&a))], element(&c).preceding_siblings());
    sink.remove_from_parent(&b);
    assert_eq!(vec!["a", "c"], shape(element(&parent)));
}

#[test]
fn remove_from_parent_under_the_document() {
    let mut package = Package::new();
    let mut sink = DocHtmlSink::new(&mut package);
    let doc = sink.get_document();
    let c = sink.create_comment("c");
    let html = sink.create_element(name("html"), vec![]);
    sink.append(&doc, node(&c));
    sink.append(&doc, node(&html));
    sink.remove_from_parent(&c);
    assert_eq!(vec!["html"], root_shape(element(&html).document()));
}

#[test]
fn reparent_children_moves_all_in_order() {
    let mut package = Package::new();
    let mut sink = DocHtmlSink::new(&mut package);
    let source = sink.create_element(name("source"), vec![]);
    let destination = sink.create_element(name("destination"), vec![]);
    let p = sink.create_element(name("p"), vec![]);
    let q = sink.create_element(name("q"), vec![]);
    let r = sink.create_element(name("r"), vec![]);
    sink.append(&source, node(&p));
    sink.append(&source, node(&q));
    sink.append(&destination, node(&r));
    sink.reparent_children(&source, &destination);
    assert_eq!(vec!["r", "p", "q"], shape(element(&destination)));
    assert_eq!(0, element(&source).children().len());
    assert_eq!(Some(element(&destination)), element(&p).parent().and_then(|x| x.element()));
    assert_eq!(Some(element(&destination)), element(&q).parent().and_then(|x| x.element()));
}

#[test]
fn reparent_children_with_text_and_nothing() {
    let mut package = Package::new();
    let mut sink = DocHtmlSink::new(&mut package);
    let source = sink.create_element(name("source"), vec![]);
    let destination = sink.create_element(name("destination"), vec![]);
    sink.reparent_children(&source, &destination);
    assert_eq!(0, element(&destination).children().len());
    sink.append(&source, text("t"));
    sink.append(&destination, text("u"));
    sink.reparent_children(&source, &destination);
    assert_eq!(vec!["'u'", "'t'"], shape(element(&destination)));
    assert_eq!(0, element(&source).children().len());
}

#[test]
fn reparent_children_onto_itself() {
    let mut package = Package::new();
    let mut sink = DocHtmlSink::new(&mut package);
    let e = sink.create_element(name("e"), vec![]);
    let p = sink.create_element(name("p"), vec![]);
    let q = sink.create_element(name("q"), vec![]);
    sink.append(&e, node(&p));
    sink.append(&e, node(&q));
    sink.reparent_children(&e, &e);
    assert_eq!(vec!["p", "q"], shape(element(&e)));
}

#[test]
fn same_node_goes_by_the_node() {
    let mut package = Package::new();
    let mut sink = DocHtmlSink::new(&mut package);
    let doc = sink.get_document();
    let a = sink.create_element(name("a"), vec![]);
    let b = sink.create_element(name("a"), vec![]);
    let c = sink.create_comment("c");
    let d = sink.create_comment("c");
    let p = sink.create_pi("t", "d");
    let q = sink.create_pi("t", "d");
    assert!(sink.same_node(&a, &a.clone()));
    assert!(!sink.same_node(&a, &b));
    assert!(sink.same_node(&c, &c.clone()));
    assert!(!sink.same_node(&c, &d));
    assert!(sink.same_node(&p, &p.clone()));
    assert!(!sink.same_node(&p, &q));
    assert!(!sink.same_node(&a, &c));
    assert!(!sink.same_node(&doc, &a));
    assert!(sink.same_node(&doc, &Handle::Document));
    let renamed = Handle::Element(element(&a), name("other"));
    assert!(sink.same_node(&a, &renamed));
    sink.append(&a, text("t"));
    sink.append(&b, text("t"));
    let t = Handle::Text(element(&a).children()[0].text().unwrap());
    let u = Handle::Text(element(&b).children()[0].text().unwrap());
    assert!(a.same_node(&a));
    assert!(t.same_node(&t.clone()));
    assert!(!t.same_node(&u));
}

#[test]
fn unsupported_operations_decline() {
    let mut package = Package::new();
    let mut sink = DocHtmlSink::new(&mut package);
    let a = sink.create_element(name("template"), vec![]);
    let b = sink.create_element(name("b"), vec![]);
    assert!(matches!(sink.get_template_contents(&a), Err(Unsupported::TemplateContents)));
    assert!(matches!(
        sink.append_based_on_parent_node(&a, &b, text("t")),
        Err(Unsupported::AppendBasedOnParentNode)
    ));
    assert_eq!(0, element(&a).children().len());
    assert_eq!(0, element(&b).children().len());
}

#[test]
fn doctype_and_quirks_mode_are_ignored() {
    let mut package = Package::new();
    let mut sink = DocHtmlSink::new(&mut package);
    sink.append_doctype_to_document("html", "", "");
    sink.set_quirks_mode(QuirksMode::Quirks);
    sink.set_quirks_mode(QuirksMode::LimitedQuirks);
    sink.set_quirks_mode(QuirksMode::NoQuirks);
    assert_eq!(0, sink.finish().len());
    assert_eq!(0, package.as_document().root().children().len());
}

#[test]
fn parent_of_a_node() {
    let mut package = Package::new();
    let mut sink = DocHtmlSink::new(&mut package);
    let document = sink.get_document();
    let html = sink.create_element(name("html"), vec![]);
    let body = sink.create_element(name("body"), vec![]);
    let c = sink.create_comment("c");
    let p = sink.create_pi("t", "d");
    assert!(sink.parent_of(&html).is_none());
    sink.append(&document, node(&html));
    sink.append(&html, node(&body));
    sink.append(&body, node(&c));
    sink.append(&body, node(&p));
    sink.append(&body, text("t"));
    assert!(matches!(sink.parent_of(&html), Some(ParentOfChild::Root)));
    assert!(matches!(html.parent(sink.arena()), Some(ParentOfChild::Root)));
    assert!(matches!(body.parent(sink.arena()), Some(ParentOfChild::Element(e)) if e == element(&html)));
    assert!(matches!(c.parent(sink.arena()), Some(ParentOfChild::Element(e)) if e == element(&body)));
    assert!(matches!(p.parent(sink.arena()), Some(ParentOfChild::Element(e)) if e == element(&body)));
    let t = Handle::Text(element(&body).children()[2].text().unwrap());
    assert!(matches!(t.parent(sink.arena()), Some(ParentOfChild::Element(e)) if e == element(&body)));
    assert!(matches!(sink.parent_of(&t), Some(ParentOfChild::Element(e)) if e == element(&body)));
}

#[test]
fn following_siblings_of_a_node() {
    let mut package = Package::new();
    let mut sink = DocHtmlSink::new(&mut package);
    let body = sink.create_element(name("body"), vec![]);
    let a = sink.create_element(name("a"), vec![]);
    let c = sink.create_comment("c");
    let p = sink.create_pi("t", "d");
    assert_eq!(0, a.following_siblings(sink.arena()).len());
    sink.append(&body, node(&a));
    sink.append(&body, node(&c));
    sink.append(&body, text("t"));
    sink.append(&body, node(&p));
    let after_a = a.following_siblings(sink.arena());
    assert_eq!(3, after_a.len());
    assert!(matches!(after_a[0], ChildOfElement::Comment(x) if Handle::Comment(x).same_node(&c)));
    assert!(matches!(after_a[1], ChildOfElement::Text(x) if x.text() == "t"));
    assert!(matches!(after_a[2], ChildOfElement::ProcessingInstruction(x) if Handle::ProcessingInstruction(x).same_node(&p)));
    assert_eq!(2, c.following_siblings(sink.arena()).len());
    let t = Handle::Text(element(&body).children()[2].text().unwrap());
    assert_eq!(1, t.following_siblings(sink.arena()).len());
    assert_eq!(0, p.following_siblings(sink.arena()).len());
}

/// A document of the arena, to set a scene with `sxd_document` itself
/// before the arena is put to use.
fn scene<'d>(arena: &mut Arena<'d>) -> Document<'d> {
    match node_or_text_into_child_of_element(arena, text("")) {
        ChildOfElement::Text(t) => t.document(),
        _ => panic!("not text"),
    }
}

#[test]
fn handle_removes_itself_from_its_parent() {
    let mut package = Package::new();
    let mut arena = Arena::new(&mut package);
    let doc = scene(&mut arena);
    let body = doc.create_element("body");
    let a = doc.create_element("a");
    let c = doc.create_comment("c");
    let t = doc.create_text("t");
    let p = doc.create_processing_instruction("t", None);
    body.append_child(a);
    body.append_child(c);
    body.append_child(t);
    body.append_child(p);
    Handle::Comment(c).remove_from_parent(&mut arena);
    assert_eq!(vec!["a", "'t'", "?t"], shape(body));
    Handle::Text(t).remove_from_parent(&mut arena);
    assert_eq!(vec!["a", "?t"], shape(body));
    Handle::ProcessingInstruction(p).remove_from_parent(&mut arena);
    Handle::from_element(&arena, a).remove_from_parent(&mut arena);
    assert_eq!(0, body.children().len());
}

#[test]
fn handles_from_nodes() {
    let mut package = Package::new();
    let mut arena = Arena::new(&mut package);
    let doc = scene(&mut arena);
    let e = doc.create_element(("urn:x", "item"));
    let h = Handle::from_element(&arena, e);
    match &h {
        Handle::Element(x, cached) => {
            assert_eq!(e, *x);
            assert_eq!("urn:x", cached.ns);
            assert_eq!("item", cached.local);
        }
        _ => panic!("not an element"),
    }
    assert_eq!(e, *h.element_ref());
    let plain = doc.create_element("plain");
    match Handle::from_parent(&arena, ParentOfChild::Element(plain)) {
        Handle::Element(x, cached) => {
            assert_eq!(plain, x);
            assert_eq!("", cached.ns);
            assert_eq!("plain", cached.local);
        }
        _ => panic!("not an element"),
    }
    assert!(matches!(Handle::from_parent(&arena, ParentOfChild::Root), Handle::Document));
    let t = doc.create_text("t");
    let c = doc.create_comment("c");
    let p = doc.create_processing_instruction("p", None);
    assert!(matches!(Handle::from_child(&arena, ChildOfElement::Text(t)), Handle::Text(x) if x == t));
    assert!(matches!(Handle::from_child(&arena, ChildOfElement::Comment(c)), Handle::Comment(x) if x == c));
    assert!(matches!(
        Handle::from_child(&arena, ChildOfElement::ProcessingInstruction(p)),
        Handle::ProcessingInstruction(x) if x == p
    ));
    assert!(matches!(Handle::from_child(&arena, ChildOfElement::Element(e)), Handle::Element(x, _) if x == e));
    assert!(matches!(ChildOfRoot::from_handle(h.clone()), ChildOfRoot::Element(x) if x == e));
    assert!(matches!(ChildOfRoot::from_handle(Handle::Comment(c)), ChildOfRoot::Comment(x) if x == c));
    assert!(matches!(
        ChildOfRoot::from_handle(Handle::ProcessingInstruction(p)),
        ChildOfRoot::ProcessingInstruction(x) if x == p
    ));
    assert!(matches!(ChildOfElement::from_handle(h.clone()), ChildOfElement::Element(x) if x == e));
    assert!(matches!(ChildOfElement::from_handle(Handle::Comment(c)), ChildOfElement::Comment(x) if x == c));
    assert!(matches!(
        ChildOfElement::from_handle(Handle::ProcessingInstruction(p)),
        ChildOfElement::ProcessingInstruction(x) if x == p
    ));
    assert!(matches!(ChildOfElement::from_handle(Handle::Text(t)), ChildOfElement::Text(x) if x == t));
    assert!(matches!(ChildOfElement::from_child_of_root(ChildOfRoot::Comment(c)), ChildOfElement::Comment(x) if x == c));
}

#[test]
fn instructions_become_children() {
    let mut package = Package::new();
    let mut arena = Arena::new(&mut package);
    let doc = scene(&mut arena);
    let e = doc.create_element("e");
    let t = doc.create_text("old");
    let h = Handle::from_element(&arena, e);
    assert!(matches!(node_or_text_into_child_of_root(node(&h)), ChildOfRoot::Element(x) if x == e));
    assert!(matches!(node_or_text_into_child_of_element(&mut arena, node(&h)), ChildOfElement::Element(x) if x == e));
    assert!(matches!(
        node_or_text_into_child_of_element(&mut arena, NodeOrText::AppendNode(Handle::Text(t))),
        ChildOfElement::Text(x) if x == t
    ));
    match node_or_text_into_child_of_element(&mut arena, text("fresh")) {
        ChildOfElement::Text(t) => {
            assert_eq!("fresh", t.text());
            assert!(t.parent().is_none());
        }
        _ => panic!("not text"),
    }
}

#[test]
fn helpers_append_and_remove() {
    let mut package = Package::new();
    let mut arena = Arena::new(&mut package);
    let doc = scene(&mut arena);
    let parent = doc.create_element("parent");
    let e = doc.create_element("e");
    let h = Handle::from_element(&arena, e);
    parent_of_child_append_node_or_text(&mut arena, &ParentOfChild::Element(parent), text("a"));
    parent_of_child_append_node_or_text(&mut arena, &ParentOfChild::Element(parent), text("b"));
    parent_of_child_append_node_or_text(&mut arena, &ParentOfChild::Element(parent), node(&h));
    assert_eq!(vec!["'a'", "'b'", "e"], shape(parent));
    let first = parent.children()[0].text().unwrap();
    parent_of_child_append_node_or_text(
        &mut arena,
        &ParentOfChild::Element(parent),
        NodeOrText::AppendNode(Handle::Text(first)),
    );
    assert_eq!(vec!["'b'", "e", "'a'"], shape(parent));
    child_of_element_remove_from_parent(&mut arena, &ChildOfElement::Text(first));
    assert_eq!(vec!["'b'", "e"], shape(parent));
    child_of_element_remove_from_parent(&mut arena, &ChildOfElement::Element(e));
    child_of_element_remove_from_parent(&mut arena, &ChildOfElement::Element(e));
    assert_eq!(vec!["'b'"], shape(parent));
    parent_of_child_append_node_or_text(&mut arena, &ParentOfChild::Root, node(&h));
    assert_eq!(vec!["e"], root_shape(doc));
    let c = doc.create_comment("c");
    let p = doc.create_processing_instruction("p", None);
    parent_of_child_append_node_or_text(&mut arena, &ParentOfChild::Root, NodeOrText::AppendNode(Handle::Comment(c)));
    parent_of_child_append_node_or_text(
        &mut arena,
        &ParentOfChild::Root,
        NodeOrText::AppendNode(Handle::ProcessingInstruction(p)),
    );
    assert_eq!(vec!["e", "[c]", "?p"], root_shape(doc));
    child_of_element_remove_from_parent(&mut arena, &ChildOfElement::Comment(c));
    child_of_element_remove_from_parent(&mut arena, &ChildOfElement::ProcessingInstruction(p));
    assert_eq!(vec!["e"], root_shape(doc));
}

#[test]
fn a_text_node_is_appended_as_a_node() {
    let mut package = Package::new();
    let mut sink = DocHtmlSink::new(&mut package);
    let div = sink.create_element(name("div"), vec![]);
    let other = sink.create_element(name("other"), vec![]);
    sink.append(&div, text("a"));
    sink.append(&other, text("b"));
    let t = element(&div).children()[0].text().unwrap();
    sink.append(&other, NodeOrText::AppendNode(Handle::Text(t)));
    assert_eq!(0, element(&div).children().len());
    assert_eq!(vec!["'b'", "'a'"], shape(element(&other)));
    assert_eq!(Some(t), element(&other).children()[1].text());
    assert_eq!(Some(element(&other)), t.parent());
}

#[test]
fn insert_before_a_text_sibling() {
    let mut package = Package::new();
    let mut sink = DocHtmlSink::new(&mut package);
    let parent = sink.create_element(name("parent"), vec![]);
    let a = sink.create_element(name("a"), vec![]);
    let b = sink.create_element(name("b"), vec![]);
    let x = sink.create_element(name("x"), vec![]);
    sink.append(&parent, node(&a));
    sink.append(&parent, text("c"));
    sink.append(&parent, node(&b));
    let t = Handle::Text(element(&parent).children()[1].text().unwrap());
    sink.append_before_sibling(&t, node(&x));
    assert_eq!(vec!["a", "x", "'c'", "b"], shape(element(&parent)));
    let t = Handle::Text(element(&parent).children()[2].text().unwrap());
    sink.append_before_sibling(&t, text("y"));
    assert_eq!(vec!["a", "x", "'yc'", "b"], shape(element(&parent)));
}

#[test]
fn new_package_is_empty() {
    let mut package = new_package();
    assert_eq!(0, package.as_document().root().children().len());
    let mut sink = DocHtmlSink::new(&mut package);
    let doc = sink.get_document();
    let html = sink.create_element(name("html"), vec![]);
    sink.append(&doc, node(&html));
    assert_eq!(0, sink.finish().len());
    assert_eq!(vec!["html"], root_shape(package.as_document()));
}

#[test]
fn handles_are_equal_by_node() {
    let mut package = Package::new();
    let mut sink = DocHtmlSink::new(&mut package);
    let a = sink.create_element(name("a"), vec![attr("k", "v")]);
    let b = sink.create_element(name("a"), vec![attr("k", "v")]);
    let copy = a.clone();
    assert!(a == copy);
    assert!(a != b);
    assert!(Handle::Element(element(&a), name("other")) == a);
    assert!(sink.get_document() == Handle::Document);
    assert!(sink.get_document() != a);
    match (&a, &copy) {
        (Handle::Element(_, x), Handle::Element(_, y)) => {
            assert_eq!(x.ns, y.ns);
            assert_eq!(x.local, y.local);
        }
        _ => panic!("not an element"),
    }
    let attribute = attr("k", "v").clone();
    assert_eq!("k", attribute.name.local);
    assert_eq!("v", attribute.value);
    let q = QName { namespace_uri: Some("urn:x".to_string()), local_part: "l".to_string() }.clone();
    assert_eq!(Some("urn:x".to_string()), q.namespace_uri);
    assert_eq!("l", q.local_part);
    match text("abc").clone() {
        NodeOrText::AppendText(s) => assert_eq!("abc", s),
        _ => panic!("not text"),
    }
}

#[test]
fn an_element_inserted_under_the_document_gives_way_to_the_one_put_back() {
    let mut package = Package::new();
    let mut sink = DocHtmlSink::new(&mut package);
    let doc = sink.get_document();
    let c = sink.create_comment("c");
    let html = sink.create_element(name("html"), vec![]);
    let x = sink.create_element(name("x"), vec![]);
    sink.append(&doc, node(&c));
    sink.append(&doc, node(&html));
    sink.append_before_sibling(&c, node(&x));
    assert_eq!(vec!["[c]", "html"], root_shape(element(&html).document()));
}
