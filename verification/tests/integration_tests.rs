use std::borrow::Cow;

use html5ever::tendril::{StrTendril, TendrilSink};
use html5ever::tree_builder::{ElementFlags, NodeOrText as BuilderNodeOrText, TreeBuilderOpts, TreeSink};
use html5ever::{ExpandedName, ParseOpts};
use sxd_document::Package;
use sxd_html::{Attribute, DocHtmlSink, Error, Handle, NodeOrText, ParentOfChild, QualName, QuirksMode};

/// What the tree builder holds for a node: the sink's handle and, for an
/// element, the name in the tree builder's own types.
#[derive(Clone)]
struct BuilderHandle<'d> {
    handle: Handle<'d>,
    name: Option<html5ever::QualName>,
}

struct Driver<'d> {
    sink: DocHtmlSink<'d>,
}

fn plain_name(name: &html5ever::QualName) -> QualName {
    QualName { ns: name.ns.to_string(), local: name.local.to_string() }
}

fn plain_attributes(attrs: Vec<html5ever::Attribute>) -> Vec<Attribute> {
    attrs
        .into_iter()
        .map(|a| Attribute { name: plain_name(&a.name), value: a.value.to_string() })
        .collect()
}

fn plain_instruction<'d>(child: BuilderNodeOrText<BuilderHandle<'d>>, under_root: bool) -> NodeOrText<'d> {
    match child {
        BuilderNodeOrText::AppendNode(h) => match h.handle {
            Handle::Document => panic!("Handle::Document cannot be made into ChildOfRoot"),
            Handle::Text(_) if under_root => panic!("Handle::Text cannot be made into ChildOfRoot"),
            handle => NodeOrText::AppendNode(handle),
        },
        BuilderNodeOrText::AppendText(_) if under_root => panic!("Text cannot be made into ChildOfRoot"),
        BuilderNodeOrText::AppendText(t) => NodeOrText::AppendText(t.to_string()),
    }
}

impl<'d> TreeSink for Driver<'d> {
    type Handle = BuilderHandle<'d>;
    type Output = Vec<Error>;

    fn set_current_line(&mut self, line_number: u64) {
        self.sink.set_current_line(line_number);
    }

    fn finish(self) -> Self::Output {
        self.sink.finish()
    }

    fn parse_error(&mut self, msg: Cow<'static, str>) {
        self.sink.parse_error(msg.into_owned());
    }

    fn get_document(&mut self) -> Self::Handle {
        BuilderHandle { handle: self.sink.get_document(), name: None }
    }

    fn elem_name<'h>(&'h self, target: &'h Self::Handle) -> ExpandedName<'h> {
        match &target.name {
            Some(name) => name.expanded(),
            None => panic!("not an element"),
        }
    }

    fn create_element(
        &mut self,
        name: html5ever::QualName,
        attrs: Vec<html5ever::Attribute>,
        _flags: ElementFlags,
    ) -> Self::Handle {
        let handle = self.sink.create_element(plain_name(&name), plain_attributes(attrs));
        BuilderHandle { handle, name: Some(name) }
    }

    fn create_comment(&mut self, text: StrTendril) -> Self::Handle {
        BuilderHandle { handle: self.sink.create_comment(text.as_ref()), name: None }
    }

    fn create_pi(&mut self, target: StrTendril, data: StrTendril) -> Self::Handle {
        BuilderHandle { handle: self.sink.create_pi(target.as_ref(), data.as_ref()), name: None }
    }

    fn append(&mut self, parent: &Self::Handle, child: BuilderNodeOrText<Self::Handle>) {
        let under_root = match parent.handle {
            Handle::Document => true,
            Handle::Element(..) => false,
            _ => panic!("Can only append into document or element"),
        };
        self.sink.append(&parent.handle, plain_instruction(child, under_root));
    }

    fn append_based_on_parent_node(
        &mut self,
        element: &Self::Handle,
        prev_element: &Self::Handle,
        child: BuilderNodeOrText<Self::Handle>,
    ) {
        self.sink
            .append_based_on_parent_node(&element.handle, &prev_element.handle, plain_instruction(child, false))
            .expect("not supported");
    }

    fn append_doctype_to_document(&mut self, name: StrTendril, public_id: StrTendril, system_id: StrTendril) {
        self.sink.append_doctype_to_document(name.as_ref(), public_id.as_ref(), system_id.as_ref());
    }

    fn get_template_contents(&mut self, target: &Self::Handle) -> Self::Handle {
        let handle = self.sink.get_template_contents(&target.handle).expect("not supported");
        BuilderHandle { handle, name: None }
    }

    fn same_node(&self, x: &Self::Handle, y: &Self::Handle) -> bool {
        self.sink.same_node(&x.handle, &y.handle)
    }

    fn set_quirks_mode(&mut self, mode: html5ever::tree_builder::QuirksMode) {
        self.sink.set_quirks_mode(match mode {
            html5ever::tree_builder::QuirksMode::Quirks => QuirksMode::Quirks,
            html5ever::tree_builder::QuirksMode::LimitedQuirks => QuirksMode::LimitedQuirks,
            html5ever::tree_builder::QuirksMode::NoQuirks => QuirksMode::NoQuirks,
        });
    }

    fn append_before_sibling(&mut self, sibling: &Self::Handle, new_node: BuilderNodeOrText<Self::Handle>) {
        if matches!(sibling.handle, Handle::Document) {
            panic!("Cannot call parent on Document");
        }
        let parent = self.sink.parent_of(&sibling.handle).expect("must have a parent");
        let under_root = matches!(parent, ParentOfChild::Root);
        self.sink.append_before_sibling(&sibling.handle, plain_instruction(new_node, under_root));
    }

    fn add_attrs_if_missing(&mut self, target: &Self::Handle, attrs: Vec<html5ever::Attribute>) {
        if !matches!(target.handle, Handle::Element(..)) {
            panic!("Handle is not an element");
        }
        self.sink.add_attrs_if_missing(&target.handle, plain_attributes(attrs));
    }

    fn remove_from_parent(&mut self, target: &Self::Handle) {
        if matches!(target.handle, Handle::Document) {
            panic!("Cannot call remove_from_parent on Document");
        }
        self.sink.remove_from_parent(&target.handle);
    }

    fn reparent_children(&mut self, node: &Self::Handle, new_parent: &Self::Handle) {
        if !matches!(node.handle, Handle::Element(..)) || !matches!(new_parent.handle, Handle::Element(..)) {
            panic!("Handle is not an element");
        }
        self.sink.reparent_children(&node.handle, &new_parent.handle);
    }
}

fn parse_html_with_errors(contents: &str) -> (Package, Vec<Error>) {
    let mut package = Package::new();
    let errors = {
        let driver = Driver { sink: DocHtmlSink::new(&mut package) };
        let opts = ParseOpts {
            tree_builder: TreeBuilderOpts { drop_doctype: true, exact_errors: true, ..Default::default() },
            ..Default::default()
        };
        html5ever::parse_document(driver, opts).one(contents)
    };
    (package, errors)
}

#[test]
fn parse_simple() {
    let contents = "<!DOCTYPE html><html><div>hello<br>bye</div></html>";
    let (package, errors) = parse_html_with_errors(contents);
    assert_eq!(0, errors.len());

    let root = package.as_document().root();
    let root = root.children()[0].element().expect("html should be root element");

    assert_eq!("html", root.name().local_part());

    let children = root.children();
    // head and body are added if not present
    assert_eq!(2, children.len());

    let head = children[0].element().unwrap();
    let body = children[1].element().unwrap();

    assert_eq!("head", head.name().local_part());
    assert_eq!(0, head.children().len());

    let children = body.children();
    assert_eq!("body", body.name().local_part());
    assert_eq!(1, children.len());

    let c0 = children[0].element().unwrap();
    let children = c0.children();
    assert_eq!("div", c0.name().local_part());
    assert_eq!(3, children.len());

    let c0 = children[0].text().unwrap();
    let c1 = children[1].element().unwrap();
    let c2 = children[2].text().unwrap();

    assert_eq!("hello", c0.text());

    assert_eq!("br", c1.name().local_part());
    assert_eq!(0, c1.children().len());

    assert_eq!("bye", c2.text());
}

#[test]
fn parse_reports_errors_with_lines() {
    let (package, errors) = parse_html_with_errors("<html>\n<body>\n</p>\n</body></html>");
    assert!(!errors.is_empty());
    for e in &errors {
        assert!(e.to_string().starts_with("sxd_html error at line "));
    }
    let root = package.as_document().root();
    assert_eq!(1, root.children().len());
}

#[test]
fn parse_attributes_and_comments() {
    let (package, _errors) =
        parse_html_with_errors("<!DOCTYPE html><!-- top --><html lang=\"en\"><body class=\"a\" id=\"b\"></body></html>");
    let root = package.as_document().root();
    let children = root.children();
    assert_eq!(2, children.len());
    assert_eq!(" top ", children[0].comment().unwrap().text());
    let html = children[1].element().unwrap();
    assert_eq!(Some("en"), html.attribute_value("lang"));
    let body = html.children()[1].element().unwrap();
    assert_eq!(Some("a"), body.attribute_value("class"));
    assert_eq!(Some("b"), body.attribute_value("id"));
}
