//! Turning an append instruction into a child of the root or of an element,
//! and the two steps the sink builds on: removing a child and appending one.

use crate::handle::NodeOrText;
use crate::model::{dom_view, Arena, ChildOfElement, ChildOfRoot, Item, ParentOfChild};
use crate::sxd;
use vstd::prelude::*;

verus! {

/// The node an instruction names, as a child of the root. Text cannot stand
/// under the root.
pub fn node_or_text_into_child_of_root<'d>(node_or_text: NodeOrText<'d>) -> (child: ChildOfRoot<'d>)
    requires
        node_or_text.is_appendable_to_root(),
    ensures
        Item::Node(child.as_child()) == node_or_text.item(),
{
    match node_or_text {
        NodeOrText::AppendNode(handle) => ChildOfRoot::from_handle(handle),
        NodeOrText::AppendText(_) => unreached(),
    }
}

/// The node an instruction names, as a child of an element; for text, a text
/// node that is allocated for it.
pub fn node_or_text_into_child_of_element<'d>(arena: &mut Arena<'d>, node_or_text: NodeOrText<'d>) -> (child:
    ChildOfElement<'d>)
    requires
        node_or_text.is_appendable(),
    ensures
        match node_or_text {
            NodeOrText::AppendNode(h) => Some(child) == h.node() && dom_view(*final(arena)) == dom_view(
                *old(arena),
            ),
            NodeOrText::AppendText(s) => child is Text && !dom_view(*old(arena)).nodes.contains(child)
                && dom_view(*final(arena)) == dom_view(*old(arena)).with_text(child->Text_0, s@),
        },
{
    match node_or_text {
        NodeOrText::AppendNode(handle) => ChildOfElement::from_handle(handle),
        NodeOrText::AppendText(text) => ChildOfElement::Text(sxd::create_text(arena, text.as_str())),
    }
}

/// Removes a child from its parent; a node without a parent stays as it is.
pub fn child_of_element_remove_from_parent<'d>(arena: &mut Arena<'d>, coe: &ChildOfElement<'d>)
    requires
        dom_view(*old(arena)).nodes.contains(*coe),
    ensures
        dom_view(*final(arena)) == dom_view(*old(arena)).detached(*coe),
{
    match coe {
        ChildOfElement::Element(x) => sxd::element_remove_from_parent(arena, x),
        ChildOfElement::Text(x) => sxd::text_remove_from_parent(arena, x),
        ChildOfElement::Comment(x) => sxd::comment_remove_from_parent(arena, x),
        ChildOfElement::ProcessingInstruction(x) => sxd::processing_instruction_remove_from_parent(arena, x),
    }
}

/// Appends what an instruction carries under the root or an element, as a
/// child of its own: a node is moved there, text is put into a text node
/// that is allocated for it.
pub fn parent_of_child_append_node_or_text<'d>(arena: &mut Arena<'d>, poc: &ParentOfChild<'d>, noe: NodeOrText<'d>)
    requires
        dom_view(*old(arena)).is_parent(*poc),
        noe.is_appendable(),
        noe.within(dom_view(*old(arena))),
        *poc is Root ==> noe.is_appendable_to_root(),
    ensures
        match noe {
            NodeOrText::AppendNode(_) => dom_view(*final(arena)) == if *poc is Root {
                dom_view(*old(arena)).appended_to_root(noe.item()->Node_0)
            } else {
                dom_view(*old(arena)).appended(*poc, noe.item()->Node_0)
            },
            NodeOrText::AppendText(s) => dom_view(*old(arena)).with_new_text(*poc, s@, dom_view(*final(arena))),
        },
{
    match poc {
        ParentOfChild::Root => sxd::root_append_child(arena, node_or_text_into_child_of_root(noe)),
        ParentOfChild::Element(e) => {
            let child = node_or_text_into_child_of_element(arena, noe);
            sxd::element_append_child(arena, e, child)
        },
    }
}

} // verus!
