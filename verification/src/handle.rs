//! Handles: what the tree builder holds in place of a DOM node.

use crate::model::{dom_view, Arena, ChildOfElement, ChildOfRoot, Dom, Item, ParentOfChild};
use crate::name::{builder_name, qualname_from_qname, QualName};
use crate::sxd;
use sxd_document::dom::{Comment, Element, ProcessingInstruction, Text};
use vstd::prelude::*;

verus! {

/// A reference to the document or to one of its nodes. An element's handle
/// carries the element's name in the tree builder's form. Two handles are
/// equal when they refer to the same node, whatever name they carry.
#[derive(Debug)]
pub enum Handle<'d> {
    Document,
    Element(Element<'d>, QualName),
    Comment(Comment<'d>),
    ProcessingInstruction(ProcessingInstruction<'d>),
    Text(Text<'d>),
}

/// An append instruction: an existing node, or text.
#[derive(Debug)]
pub enum NodeOrText<'d> {
    AppendNode(Handle<'d>),
    AppendText(String),
}

impl<'d> Clone for Handle<'d> {
    fn clone(&self) -> (copy: Handle<'d>)
        ensures
            copy == *self,
    {
        match self {
            Handle::Document => Handle::Document,
            Handle::Element(e, name) => Handle::Element(*e, name.clone()),
            Handle::Comment(c) => Handle::Comment(*c),
            Handle::ProcessingInstruction(p) => Handle::ProcessingInstruction(*p),
            Handle::Text(t) => Handle::Text(*t),
        }
    }
}

impl<'d> PartialEq for Handle<'d> {
    fn eq(&self, other: &Handle<'d>) -> (same: bool) {
        self.same_node(other)
    }
}

impl<'d> vstd::std_specs::cmp::PartialEqSpecImpl for Handle<'d> {
    open spec fn obeys_eq_spec() -> bool {
        true
    }

    open spec fn eq_spec(&self, other: &Handle<'d>) -> bool {
        self.node() == other.node()
    }
}

impl<'d> Eq for Handle<'d> {

}

impl<'d> Clone for NodeOrText<'d> {
    fn clone(&self) -> (copy: NodeOrText<'d>)
        ensures
            copy == *self,
    {
        match self {
            NodeOrText::AppendNode(h) => NodeOrText::AppendNode(h.clone()),
            NodeOrText::AppendText(s) => NodeOrText::AppendText(s.clone()),
        }
    }
}

impl<'d> Handle<'d> {
    /// The node the handle refers to; none for the document.
    pub open spec fn node(self) -> Option<ChildOfElement<'d>> {
        match self {
            Handle::Document => None,
            Handle::Element(e, _) => Some(ChildOfElement::Element(e)),
            Handle::Comment(c) => Some(ChildOfElement::Comment(c)),
            Handle::ProcessingInstruction(p) => Some(ChildOfElement::ProcessingInstruction(p)),
            Handle::Text(t) => Some(ChildOfElement::Text(t)),
        }
    }

    /// What the handle refers to, as something that can have children; none
    /// for a comment, a processing instruction or text.
    pub open spec fn as_parent(self) -> Option<ParentOfChild<'d>> {
        match self {
            Handle::Document => Some(ParentOfChild::Root),
            Handle::Element(e, _) => Some(ParentOfChild::Element(e)),
            _ => None,
        }
    }

    /// Whether the handle can stand for a child of the root: it refers to an
    /// element, a comment or a processing instruction.
    pub open spec fn is_child(self) -> bool {
        self is Element || self is Comment || self is ProcessingInstruction
    }

    /// Whether what the handle refers to belongs to the document in state
    /// `dom`.
    pub open spec fn within(self, dom: Dom<'d>) -> bool {
        self.node() matches Some(c) ==> dom.nodes.contains(c)
    }

    /// Whether the name an element's handle carries is the element's name in
    /// state `dom`.
    pub open spec fn named_in(self, dom: Dom<'d>) -> bool {
        self matches Handle::Element(e, name) ==> name@ == builder_name(dom.names[e])
    }

    /// The element behind an element's handle.
    pub fn element_ref(&self) -> (e: &Element<'d>)
        requires
            self is Element,
        ensures
            *e == self->Element_0,
    {
        match self {
            Handle::Element(e, _) => e,
            _ => unreached(),
        }
    }

    /// The parent link of the node.
    pub fn parent(&self, arena: &Arena<'d>) -> (parent: Option<ParentOfChild<'d>>)
        requires
            !(self is Document),
            self.within(dom_view(*arena)),
        ensures
            parent == dom_view(*arena).parent[self.node()->Some_0],
    {
        match self {
            Handle::Document => unreached(),
            Handle::Element(e, _) => sxd::element_parent(arena, e),
            Handle::Comment(c) => sxd::comment_parent(arena, c),
            Handle::ProcessingInstruction(p) => sxd::processing_instruction_parent(arena, p),
            Handle::Text(t) => sxd::text_parent(arena, t),
        }
    }

    /// The siblings that come after the node under its parent, in order.
    pub fn following_siblings(&self, arena: &Arena<'d>) -> (siblings: Vec<ChildOfElement<'d>>)
        requires
            !(self is Document),
            self.within(dom_view(*arena)),
            dom_view(*arena).linked(self.node()->Some_0),
        ensures
            siblings@ == dom_view(*arena).following(self.node()->Some_0),
    {
        match self {
            Handle::Document => unreached(),
            Handle::Element(e, _) => sxd::element_following_siblings(arena, e),
            Handle::Comment(c) => sxd::comment_following_siblings(arena, c),
            Handle::ProcessingInstruction(p) => sxd::processing_instruction_following_siblings(arena, p),
            Handle::Text(t) => sxd::text_following_siblings(arena, t),
        }
    }

    /// Removes the node from its parent; a node without a parent stays as it
    /// is.
    pub fn remove_from_parent(&self, arena: &mut Arena<'d>)
        requires
            !(self is Document),
            self.within(dom_view(*old(arena))),
        ensures
            dom_view(*final(arena)) == dom_view(*old(arena)).detached(self.node()->Some_0),
    {
        match self {
            Handle::Document => unreached(),
            Handle::Element(e, _) => sxd::element_remove_from_parent(arena, e),
            Handle::Comment(c) => sxd::comment_remove_from_parent(arena, c),
            Handle::ProcessingInstruction(p) => sxd::processing_instruction_remove_from_parent(arena, p),
            Handle::Text(t) => sxd::text_remove_from_parent(arena, t),
        }
    }

    /// Whether the two handles refer to the same node, or both to the
    /// document.
    pub fn same_node(&self, other: &Handle<'d>) -> (same: bool)
        ensures
            same == (self.node() == other.node()),
    {
        match (self, other) {
            (Handle::Document, Handle::Document) => true,
            (Handle::Element(a, _), Handle::Element(b, _)) => sxd::same_element(a, b),
            (Handle::Comment(a), Handle::Comment(b)) => sxd::same_comment(a, b),
            (Handle::ProcessingInstruction(a), Handle::ProcessingInstruction(b)) => {
                sxd::same_processing_instruction(a, b)
            },
            (Handle::Text(a), Handle::Text(b)) => sxd::same_text(a, b),
            _ => false,
        }
    }

    /// The handle of an element, with the element's name read from the
    /// document.
    pub fn from_element(arena: &Arena<'d>, e: Element<'d>) -> (handle: Handle<'d>)
        requires
            dom_view(*arena).nodes.contains(ChildOfElement::Element(e)),
        ensures
            handle.node() == Some(ChildOfElement::Element(e)),
            handle.named_in(dom_view(*arena)),
    {
        let name = qualname_from_qname(sxd::element_name(arena, &e));
        Handle::Element(e, name)
    }

    /// The handle of a node that can have children.
    pub fn from_parent(arena: &Arena<'d>, p: ParentOfChild<'d>) -> (handle: Handle<'d>)
        requires
            dom_view(*arena).is_parent(p),
        ensures
            handle.as_parent() == Some(p),
            handle.named_in(dom_view(*arena)),
    {
        match p {
            ParentOfChild::Root => Handle::Document,
            ParentOfChild::Element(e) => Handle::from_element(arena, e),
        }
    }

    /// The handle of a node that can be a child.
    pub fn from_child(arena: &Arena<'d>, c: ChildOfElement<'d>) -> (handle: Handle<'d>)
        requires
            dom_view(*arena).nodes.contains(c),
        ensures
            handle.node() == Some(c),
            handle.named_in(dom_view(*arena)),
    {
        match c {
            ChildOfElement::Element(e) => Handle::from_element(arena, e),
            ChildOfElement::Text(t) => Handle::Text(t),
            ChildOfElement::Comment(c) => Handle::Comment(c),
            ChildOfElement::ProcessingInstruction(p) => Handle::ProcessingInstruction(p),
        }
    }
}

impl<'d> NodeOrText<'d> {
    /// Whether the instruction names a node, not the document, or is text.
    pub open spec fn is_appendable(self) -> bool {
        self matches NodeOrText::AppendNode(h) ==> !(h is Document)
    }

    /// Whether the instruction names a node that can stand under the root:
    /// an element, a comment or a processing instruction.
    pub open spec fn is_appendable_to_root(self) -> bool {
        self matches NodeOrText::AppendNode(h) && h.is_child()
    }

    /// Whether the instruction names a text node.
    pub open spec fn is_text_node(self) -> bool {
        self matches NodeOrText::AppendNode(h) && h is Text
    }

    /// What the instruction carries.
    pub open spec fn item(self) -> Item<'d> {
        match self {
            NodeOrText::AppendNode(h) => Item::Node(h.node()->Some_0),
            NodeOrText::AppendText(s) => Item::Text(s@),
        }
    }

    /// Whether the node the instruction names, if it names one, belongs to
    /// the document in state `dom`.
    pub open spec fn within(self, dom: Dom<'d>) -> bool {
        self matches NodeOrText::AppendNode(h) ==> h.within(dom)
    }
}

impl<'d> ChildOfRoot<'d> {
    /// The node behind a handle, as a child of the root. Only an element, a
    /// comment or a processing instruction can be one.
    pub fn from_handle(h: Handle<'d>) -> (child: ChildOfRoot<'d>)
        requires
            h.is_child(),
        ensures
            Some(child.as_child()) == h.node(),
    {
        match h {
            Handle::Document => unreached(),
            Handle::Element(e, _) => ChildOfRoot::Element(e),
            Handle::Comment(c) => ChildOfRoot::Comment(c),
            Handle::ProcessingInstruction(p) => ChildOfRoot::ProcessingInstruction(p),
            Handle::Text(_) => unreached(),
        }
    }
}

impl<'d> ChildOfElement<'d> {
    /// A child of the root, as a child of an element.
    pub fn from_child_of_root(c: ChildOfRoot<'d>) -> (child: ChildOfElement<'d>)
        ensures
            child == c.as_child(),
    {
        match c {
            ChildOfRoot::Element(e) => ChildOfElement::Element(e),
            ChildOfRoot::Comment(c) => ChildOfElement::Comment(c),
            ChildOfRoot::ProcessingInstruction(p) => ChildOfElement::ProcessingInstruction(p),
        }
    }

    /// The node behind a handle, as a child of an element. Every node can
    /// be one; the document cannot.
    pub fn from_handle(h: Handle<'d>) -> (child: ChildOfElement<'d>)
        requires
            !(h is Document),
        ensures
            Some(child) == h.node(),
    {
        match h {
            Handle::Text(t) => ChildOfElement::Text(t),
            other => ChildOfElement::from_child_of_root(ChildOfRoot::from_handle(other)),
        }
    }
}

} // verus!
