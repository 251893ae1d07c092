//! The calls into `sxd_document`. Each function here makes one call and states
//! what that call does to the document's state, as the source of
//! `sxd_document` shows it. None of these contracts is proved: everything
//! else in this crate is proved from them.
//!
//! A document and a node of `sxd_document` can be copied and are changed
//! through a shared reference. Here the document is held in an [`Arena`],
//! which cannot be copied; every call that reads the state takes the arena,
//! every call that changes it takes the arena by `&mut`, and an arena is had
//! only by borrowing its package mutably. So one arena alone stands for the
//! state of its package, and the verifier sees every change.

use crate::model::{dom_view, package_view, Arena, ChildOfElement, ChildOfRoot, Dom, ParentOfChild};
use crate::name::QName;
use sxd_document::dom;
use sxd_document::dom::{Comment, Element, ProcessingInstruction, Text};
use sxd_document::Package;
use vstd::prelude::*;

verus! {

/// `Package::new`: a package whose document holds nothing but its root.
#[verifier::external_body]
pub(crate) fn package_new() -> (package: Package)
    ensures
        package_view(package) == Dom::empty(),
{
    Package::new()
}

/// `Package::as_document`: the document of the package, held in an arena
/// handle. The package is taken by `&mut`, so that no second document of it
/// is at hand while this one is.
#[verifier::external_body]
pub(crate) fn package_as_document<'d>(package: &'d mut Package) -> (arena: Arena<'d>)
    ensures
        dom_view(arena) == package_view(*old(package)),
{
    Arena { document: package.as_document() }
}

/// `Document::create_element`: allocates an element of the given name that
/// did not exist before, without parent, children or attributes.
#[verifier::external_body]
pub(crate) fn create_element<'d>(arena: &mut Arena<'d>, name: &QName) -> (e: Element<'d>)
    ensures
        !dom_view(*old(arena)).nodes.contains(ChildOfElement::Element(e)),
        dom_view(*final(arena)) == dom_view(*old(arena)).with_element(e, name@, Map::empty()),
{
    let name = sxd_document::QName::with_namespace_uri(name.namespace_uri.as_deref(), &name.local_part);
    arena.document.create_element(name)
}

/// `Document::create_text`: allocates a text node holding `content` that did
/// not exist before, without parent.
#[verifier::external_body]
pub(crate) fn create_text<'d>(arena: &mut Arena<'d>, content: &str) -> (t: Text<'d>)
    ensures
        !dom_view(*old(arena)).nodes.contains(ChildOfElement::Text(t)),
        dom_view(*final(arena)) == dom_view(*old(arena)).with_text(t, content@),
{
    arena.document.create_text(content)
}

/// `Document::create_comment`: allocates a comment holding `content` that did
/// not exist before, without parent.
#[verifier::external_body]
pub(crate) fn create_comment<'d>(arena: &mut Arena<'d>, content: &str) -> (c: Comment<'d>)
    ensures
        !dom_view(*old(arena)).nodes.contains(ChildOfElement::Comment(c)),
        dom_view(*final(arena)) == dom_view(*old(arena)).with_comment(c, content@),
{
    arena.document.create_comment(content)
}

/// `Document::create_processing_instruction`: allocates a processing
/// instruction with the given target and data that did not exist before,
/// without parent.
#[verifier::external_body]
pub(crate) fn create_processing_instruction<'d>(
    arena: &mut Arena<'d>,
    target: &str,
    data: Option<&str>,
) -> (p: ProcessingInstruction<'d>)
    ensures
        !dom_view(*old(arena)).nodes.contains(ChildOfElement::ProcessingInstruction(p)),
        dom_view(*final(arena)) == dom_view(*old(arena)).with_instruction(
            p,
            target@,
            match data {
                Some(d) => Some(d@),
                None => None,
            },
        ),
{
    arena.document.create_processing_instruction(target, data)
}

/// `Root::append_child`: an element that arrives strikes every element from
/// the root's child list; then the child leaves the child list of its
/// previous parent, names the root as its parent and comes last under it.
#[verifier::external_body]
pub(crate) fn root_append_child<'d>(arena: &mut Arena<'d>, child: ChildOfRoot<'d>)
    requires
        dom_view(*old(arena)).nodes.contains(child.as_child()),
    ensures
        dom_view(*final(arena)) == dom_view(*old(arena)).appended_to_root(child.as_child()),
{
    arena.document.root().append_child(match child {
        ChildOfRoot::Element(n) => dom::ChildOfRoot::Element(n),
        ChildOfRoot::Comment(n) => dom::ChildOfRoot::Comment(n),
        ChildOfRoot::ProcessingInstruction(n) => dom::ChildOfRoot::ProcessingInstruction(n),
    })
}

/// `Element::append_child`: the child leaves the child list of its previous
/// parent, names `parent` as its parent and comes last under it.
#[verifier::external_body]
pub(crate) fn element_append_child<'d>(arena: &mut Arena<'d>, parent: &Element<'d>, child: ChildOfElement<'d>)
    requires
        dom_view(*old(arena)).nodes.contains(ChildOfElement::Element(*parent)),
        dom_view(*old(arena)).nodes.contains(child),
    ensures
        dom_view(*final(arena)) == dom_view(*old(arena)).appended(ParentOfChild::Element(*parent), child),
{
    parent.append_child(match child {
        ChildOfElement::Element(n) => dom::ChildOfElement::Element(n),
        ChildOfElement::Text(n) => dom::ChildOfElement::Text(n),
        ChildOfElement::Comment(n) => dom::ChildOfElement::Comment(n),
        ChildOfElement::ProcessingInstruction(n) => dom::ChildOfElement::ProcessingInstruction(n),
    })
}

/// `Element::append_children`: appends each child in turn, as
/// `Element::append_child` does.
#[verifier::external_body]
pub(crate) fn element_append_children<'d>(
    arena: &mut Arena<'d>,
    parent: &Element<'d>,
    children: Vec<ChildOfElement<'d>>,
)
    requires
        dom_view(*old(arena)).nodes.contains(ChildOfElement::Element(*parent)),
        forall|i: int| 0 <= i < children@.len() ==> dom_view(*old(arena)).nodes.contains(#[trigger] children@[i]),
    ensures
        dom_view(*final(arena)) == dom_view(*old(arena)).appended_all(ParentOfChild::Element(*parent), children@),
{
    parent.append_children(children.into_iter().map(|c| match c {
        ChildOfElement::Element(n) => dom::ChildOfElement::Element(n),
        ChildOfElement::Text(n) => dom::ChildOfElement::Text(n),
        ChildOfElement::Comment(n) => dom::ChildOfElement::Comment(n),
        ChildOfElement::ProcessingInstruction(n) => dom::ChildOfElement::ProcessingInstruction(n),
    }))
}

/// `Element::clear_children`: empties the child list of the element; each
/// node that stood in it loses its parent link.
#[verifier::external_body]
pub(crate) fn element_clear_children<'d>(arena: &mut Arena<'d>, e: &Element<'d>)
    requires
        dom_view(*old(arena)).nodes.contains(ChildOfElement::Element(*e)),
    ensures
        dom_view(*final(arena)) == dom_view(*old(arena)).cleared(ParentOfChild::Element(*e)),
{
    e.clear_children()
}

/// `Element::children`: the child list of the element, in order.
#[verifier::external_body]
pub(crate) fn element_children<'d>(arena: &Arena<'d>, e: &Element<'d>) -> (children: Vec<ChildOfElement<'d>>)
    requires
        dom_view(*arena).nodes.contains(ChildOfElement::Element(*e)),
    ensures
        children@ == dom_view(*arena).children[ParentOfChild::Element(*e)],
{
    e.children().into_iter().map(|c| match c {
        dom::ChildOfElement::Element(n) => ChildOfElement::Element(n),
        dom::ChildOfElement::Text(n) => ChildOfElement::Text(n),
        dom::ChildOfElement::Comment(n) => ChildOfElement::Comment(n),
        dom::ChildOfElement::ProcessingInstruction(n) => ChildOfElement::ProcessingInstruction(n),
    }).collect()
}

/// `Element::name`: the name of the element.
#[verifier::external_body]
pub(crate) fn element_name<'d>(arena: &Arena<'d>, e: &Element<'d>) -> (name: QName)
    requires
        dom_view(*arena).nodes.contains(ChildOfElement::Element(*e)),
    ensures
        name@ == dom_view(*arena).names[*e],
{
    let name = e.name();
    QName { namespace_uri: name.namespace_uri().map(String::from), local_part: String::from(name.local_part()) }
}

/// `Element::attribute_value`: the value of the attribute of that name, if
/// the element has one.
#[verifier::external_body]
pub(crate) fn element_attribute_value<'d>(arena: &Arena<'d>, e: &Element<'d>, name: &QName) -> (value: Option<
    String,
>)
    requires
        dom_view(*arena).nodes.contains(ChildOfElement::Element(*e)),
    ensures
        match value {
            Some(v) => dom_view(*arena).attribute_value(*e, name@) == Some(v@),
            None => dom_view(*arena).attribute_value(*e, name@) is None,
        },
{
    let name = sxd_document::QName::with_namespace_uri(name.namespace_uri.as_deref(), &name.local_part);
    e.attribute_value(name).map(String::from)
}

/// `Element::set_attribute_value`: the element has an attribute of that name
/// with that value afterwards, in place of any it had under that name.
#[verifier::external_body]
pub(crate) fn element_set_attribute_value<'d>(arena: &mut Arena<'d>, e: &Element<'d>, name: &QName, value: &str)
    requires
        dom_view(*old(arena)).nodes.contains(ChildOfElement::Element(*e)),
    ensures
        dom_view(*final(arena)) == dom_view(*old(arena)).with_attribute(*e, name@, value@),
{
    let name = sxd_document::QName::with_namespace_uri(name.namespace_uri.as_deref(), &name.local_part);
    e.set_attribute_value(name, value);
}

/// `Element::parent`: the parent link of the element.
#[verifier::external_body]
pub(crate) fn element_parent<'d>(arena: &Arena<'d>, e: &Element<'d>) -> (parent: Option<ParentOfChild<'d>>)
    requires
        dom_view(*arena).nodes.contains(ChildOfElement::Element(*e)),
    ensures
        parent == dom_view(*arena).parent[ChildOfElement::Element(*e)],
{
    e.parent().map(|p| match p {
        dom::ParentOfChild::Root(_) => ParentOfChild::Root,
        dom::ParentOfChild::Element(n) => ParentOfChild::Element(n),
    })
}

/// `Comment::parent`: the parent link of the comment.
#[verifier::external_body]
pub(crate) fn comment_parent<'d>(arena: &Arena<'d>, c: &Comment<'d>) -> (parent: Option<ParentOfChild<'d>>)
    requires
        dom_view(*arena).nodes.contains(ChildOfElement::Comment(*c)),
    ensures
        parent == dom_view(*arena).parent[ChildOfElement::Comment(*c)],
{
    c.parent().map(|p| match p {
        dom::ParentOfChild::Root(_) => ParentOfChild::Root,
        dom::ParentOfChild::Element(n) => ParentOfChild::Element(n),
    })
}

/// `ProcessingInstruction::parent`: the parent link of the processing
/// instruction.
#[verifier::external_body]
pub(crate) fn processing_instruction_parent<'d>(arena: &Arena<'d>, p: &ProcessingInstruction<'d>) -> (parent:
    Option<ParentOfChild<'d>>)
    requires
        dom_view(*arena).nodes.contains(ChildOfElement::ProcessingInstruction(*p)),
    ensures
        parent == dom_view(*arena).parent[ChildOfElement::ProcessingInstruction(*p)],
{
    p.parent().map(|p| match p {
        dom::ParentOfChild::Root(_) => ParentOfChild::Root,
        dom::ParentOfChild::Element(n) => ParentOfChild::Element(n),
    })
}

/// `Text::parent`: the parent link of the text node.
#[verifier::external_body]
pub(crate) fn text_parent<'d>(arena: &Arena<'d>, t: &Text<'d>) -> (parent: Option<ParentOfChild<'d>>)
    requires
        dom_view(*arena).nodes.contains(ChildOfElement::Text(*t)),
    ensures
        parent == dom_view(*arena).parent[ChildOfElement::Text(*t)],
{
    t.parent().map(ParentOfChild::Element)
}

/// `Element::following_siblings`: the nodes after the first occurrence of
/// the element in the child list of its parent; none without a parent. The
/// call does not return for an element that names a parent whose child list
/// does not hold it.
#[verifier::external_body]
pub(crate) fn element_following_siblings<'d>(arena: &Arena<'d>, e: &Element<'d>) -> (siblings: Vec<
    ChildOfElement<'d>,
>)
    requires
        dom_view(*arena).nodes.contains(ChildOfElement::Element(*e)),
        dom_view(*arena).linked(ChildOfElement::Element(*e)),
    ensures
        siblings@ == dom_view(*arena).following(ChildOfElement::Element(*e)),
{
    e.following_siblings().into_iter().map(|c| match c {
        dom::ChildOfElement::Element(n) => ChildOfElement::Element(n),
        dom::ChildOfElement::Text(n) => ChildOfElement::Text(n),
        dom::ChildOfElement::Comment(n) => ChildOfElement::Comment(n),
        dom::ChildOfElement::ProcessingInstruction(n) => ChildOfElement::ProcessingInstruction(n),
    }).collect()
}

/// `Comment::following_siblings`: as for an element.
#[verifier::external_body]
pub(crate) fn comment_following_siblings<'d>(arena: &Arena<'d>, c: &Comment<'d>) -> (siblings: Vec<
    ChildOfElement<'d>,
>)
    requires
        dom_view(*arena).nodes.contains(ChildOfElement::Comment(*c)),
        dom_view(*arena).linked(ChildOfElement::Comment(*c)),
    ensures
        siblings@ == dom_view(*arena).following(ChildOfElement::Comment(*c)),
{
    c.following_siblings().into_iter().map(|c| match c {
        dom::ChildOfElement::Element(n) => ChildOfElement::Element(n),
        dom::ChildOfElement::Text(n) => ChildOfElement::Text(n),
        dom::ChildOfElement::Comment(n) => ChildOfElement::Comment(n),
        dom::ChildOfElement::ProcessingInstruction(n) => ChildOfElement::ProcessingInstruction(n),
    }).collect()
}

/// `ProcessingInstruction::following_siblings`: as for an element.
#[verifier::external_body]
pub(crate) fn processing_instruction_following_siblings<'d>(
    arena: &Arena<'d>,
    p: &ProcessingInstruction<'d>,
) -> (siblings: Vec<ChildOfElement<'d>>)
    requires
        dom_view(*arena).nodes.contains(ChildOfElement::ProcessingInstruction(*p)),
        dom_view(*arena).linked(ChildOfElement::ProcessingInstruction(*p)),
    ensures
        siblings@ == dom_view(*arena).following(ChildOfElement::ProcessingInstruction(*p)),
{
    p.following_siblings().into_iter().map(|c| match c {
        dom::ChildOfElement::Element(n) => ChildOfElement::Element(n),
        dom::ChildOfElement::Text(n) => ChildOfElement::Text(n),
        dom::ChildOfElement::Comment(n) => ChildOfElement::Comment(n),
        dom::ChildOfElement::ProcessingInstruction(n) => ChildOfElement::ProcessingInstruction(n),
    }).collect()
}

/// `Text::following_siblings`: as for an element.
#[verifier::external_body]
pub(crate) fn text_following_siblings<'d>(arena: &Arena<'d>, t: &Text<'d>) -> (siblings: Vec<ChildOfElement<'d>>)
    requires
        dom_view(*arena).nodes.contains(ChildOfElement::Text(*t)),
        dom_view(*arena).linked(ChildOfElement::Text(*t)),
    ensures
        siblings@ == dom_view(*arena).following(ChildOfElement::Text(*t)),
{
    t.following_siblings().into_iter().map(|c| match c {
        dom::ChildOfElement::Element(n) => ChildOfElement::Element(n),
        dom::ChildOfElement::Text(n) => ChildOfElement::Text(n),
        dom::ChildOfElement::Comment(n) => ChildOfElement::Comment(n),
        dom::ChildOfElement::ProcessingInstruction(n) => ChildOfElement::ProcessingInstruction(n),
    }).collect()
}

/// `Element::remove_from_parent`: the element loses its parent link and
/// leaves that parent's child list; without a parent nothing changes.
#[verifier::external_body]
pub(crate) fn element_remove_from_parent<'d>(arena: &mut Arena<'d>, e: &Element<'d>)
    requires
        dom_view(*old(arena)).nodes.contains(ChildOfElement::Element(*e)),
    ensures
        dom_view(*final(arena)) == dom_view(*old(arena)).detached(ChildOfElement::Element(*e)),
{
    e.remove_from_parent()
}

/// `Comment::remove_from_parent`: as for an element.
#[verifier::external_body]
pub(crate) fn comment_remove_from_parent<'d>(arena: &mut Arena<'d>, c: &Comment<'d>)
    requires
        dom_view(*old(arena)).nodes.contains(ChildOfElement::Comment(*c)),
    ensures
        dom_view(*final(arena)) == dom_view(*old(arena)).detached(ChildOfElement::Comment(*c)),
{
    c.remove_from_parent()
}

/// `ProcessingInstruction::remove_from_parent`: as for an element.
#[verifier::external_body]
pub(crate) fn processing_instruction_remove_from_parent<'d>(arena: &mut Arena<'d>, p: &ProcessingInstruction<'d>)
    requires
        dom_view(*old(arena)).nodes.contains(ChildOfElement::ProcessingInstruction(*p)),
    ensures
        dom_view(*final(arena)) == dom_view(*old(arena)).detached(ChildOfElement::ProcessingInstruction(*p)),
{
    p.remove_from_parent()
}

/// `Text::remove_from_parent`: as for an element.
#[verifier::external_body]
pub(crate) fn text_remove_from_parent<'d>(arena: &mut Arena<'d>, t: &Text<'d>)
    requires
        dom_view(*old(arena)).nodes.contains(ChildOfElement::Text(*t)),
    ensures
        dom_view(*final(arena)) == dom_view(*old(arena)).detached(ChildOfElement::Text(*t)),
{
    t.remove_from_parent()
}

/// `Text::text`: the content of the text node.
#[verifier::external_body]
pub(crate) fn text_content<'d>(arena: &Arena<'d>, t: &Text<'d>) -> (content: String)
    requires
        dom_view(*arena).nodes.contains(ChildOfElement::Text(*t)),
    ensures
        content@ == dom_view(*arena).text[*t],
{
    String::from(t.text())
}

/// `Text::set_text`: replaces the content of the text node.
#[verifier::external_body]
pub(crate) fn text_set_content<'d>(arena: &mut Arena<'d>, t: &Text<'d>, content: &str)
    requires
        dom_view(*old(arena)).nodes.contains(ChildOfElement::Text(*t)),
    ensures
        dom_view(*final(arena)) == dom_view(*old(arena)).with_text_set(*t, content@),
{
    t.set_text(content)
}

/// `==` on `Element`: whether the two are the same node.
#[verifier::external_body]
pub(crate) fn same_element<'d>(a: &Element<'d>, b: &Element<'d>) -> (same: bool)
    ensures
        same == (*a == *b),
{
    a == b
}

/// `==` on `Text`: whether the two are the same node.
#[verifier::external_body]
pub(crate) fn same_text<'d>(a: &Text<'d>, b: &Text<'d>) -> (same: bool)
    ensures
        same == (*a == *b),
{
    a == b
}

/// `==` on `Comment`: whether the two are the same node.
#[verifier::external_body]
pub(crate) fn same_comment<'d>(a: &Comment<'d>, b: &Comment<'d>) -> (same: bool)
    ensures
        same == (*a == *b),
{
    a == b
}

/// `==` on `ProcessingInstruction`: whether the two are the same node.
#[verifier::external_body]
pub(crate) fn same_processing_instruction<'d>(a: &ProcessingInstruction<'d>, b: &ProcessingInstruction<'d>) -> (same:
    bool)
    ensures
        same == (*a == *b),
{
    a == b
}

} // verus!
