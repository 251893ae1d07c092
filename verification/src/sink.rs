//! The sink: the operations a tree builder drives, carried out on a DOM
//! document.

use crate::error::{error_views, Error, ErrorView};
use crate::handle::{Handle, NodeOrText};
use crate::content::{
    inserts_plainly, inserts_plainly_under_root, lemma_insert_between, lemma_insert_between_under_root,
};
use crate::lemmas::lemma_with_missing_attributes;
use crate::model::{
    append_item, append_items, append_root_item, append_root_items, dom_view, package_view, position,
    with_attributes, with_missing_attributes, without, Arena, ChildOfElement, Dom, Item, ParentOfChild,
};
use crate::name::{dom_name, qualname_as_qname, Attribute, QNameView, QualName};
use crate::sxd;
use crate::util;
use sxd_document::Package;
use vstd::prelude::*;
use vstd::string::StringExecFns;

verus! {

/// How far a document departs from the standard, as the tree builder reports
/// it.
#[derive(Clone, Copy, Debug)]
pub enum QuirksMode {
    Quirks,
    LimitedQuirks,
    NoQuirks,
}

/// An operation that the sink declines to carry out.
#[derive(Clone, Copy, Debug)]
pub enum Unsupported {
    /// Appending at a place that depends on whether an element has a parent.
    AppendBasedOnParentNode,
    /// The contents of a template element.
    TemplateContents,
}

/// A package whose document holds nothing but its root.
pub fn new_package() -> (package: Package)
    ensures
        package_view(package) == Dom::empty(),
        package_view(package).wf(),
{
    sxd::package_new()
}

impl<'d> Arena<'d> {
    /// The arena of the given package. The package is borrowed for as long
    /// as the arena and the nodes had from it live: nothing else reads or
    /// changes the document meanwhile.
    pub fn new(package: &'d mut Package) -> (arena: Arena<'d>)
        ensures
            dom_view(arena) == package_view(*old(package)),
    {
        sxd::package_as_document(package)
    }
}

/// The sink of one parse: the document that is built, the diagnostics so
/// far, and the line the tree builder reported last.
pub struct DocHtmlSink<'d> {
    arena: Arena<'d>,
    errors: Vec<Error>,
    current_line: u64,
}

impl<'d> DocHtmlSink<'d> {
    /// The state of the document.
    pub closed spec fn dom(&self) -> Dom<'d> {
        dom_view(self.arena)
    }

    /// The diagnostics so far, in the order they were reported.
    pub closed spec fn errors(&self) -> Seq<ErrorView> {
        error_views(self.errors@)
    }

    /// The line the tree builder reported last.
    pub closed spec fn current_line(&self) -> u64 {
        self.current_line
    }

    /// The arena the sink builds in, to read from.
    pub fn arena(&self) -> (arena: &Arena<'d>)
        ensures
            dom_view(*arena) == self.dom(),
    {
        &self.arena
    }

    /// The sink's invariant: the links of the document are consistent.
    pub open spec fn wf(&self) -> bool {
        self.dom().wf()
    }

    /// A sink that builds in the document of the given package, with no
    /// diagnostics, at line 0. The package is borrowed for as long as the
    /// sink and its handles live: nothing else changes the document
    /// meanwhile.
    pub fn new(package: &'d mut Package) -> (sink: DocHtmlSink<'d>)
        requires
            package_view(*old(package)).wf(),
        ensures
            sink.wf(),
            sink.dom() == package_view(*old(package)),
            sink.errors() == Seq::<ErrorView>::empty(),
            sink.current_line() == 0,
    {
        let arena = Arena::new(package);
        let sink = DocHtmlSink { arena, errors: Vec::new(), current_line: 0 };
        assert(sink.errors() =~= Seq::<ErrorView>::empty());
        sink
    }

    /// Records the line the tree builder is at.
    pub fn set_current_line(&mut self, line_number: u64)
        ensures
            final(self).current_line() == line_number,
            final(self).dom() == old(self).dom(),
            final(self).errors() == old(self).errors(),
    {
        self.current_line = line_number;
    }

    /// Ends the parse and hands over the diagnostics, in the order they were
    /// reported.
    pub fn finish(self) -> (errors: Vec<Error>)
        ensures
            error_views(errors@) == self.errors(),
    {
        self.errors
    }

    /// Records a diagnostic at the current line.
    pub fn parse_error(&mut self, msg: String)
        ensures
            final(self).errors() == old(self).errors().push(
                ErrorView { line: old(self).current_line(), message: msg@ },
            ),
            final(self).current_line() == old(self).current_line(),
            final(self).dom() == old(self).dom(),
    {
        self.errors.push(Error::new(self.current_line, msg));
        assert(self.errors() =~= old(self).errors().push(
            ErrorView { line: old(self).current_line(), message: msg@ },
        ));
    }

    /// The handle of the document.
    pub fn get_document(&mut self) -> (handle: Handle<'d>)
        ensures
            handle is Document,
            *final(self) == *old(self),
    {
        Handle::Document
    }

    /// The name that an element's handle carries.
    pub fn elem_name<'h>(&'h self, target: &'h Handle<'d>) -> (name: &'h QualName)
        requires
            target is Element,
        ensures
            *name == target->Element_1,
    {
        match target {
            Handle::Element(_, qualname) => qualname,
            _ => unreached(),
        }
    }

    /// Allocates an element of the given name and sets each attribute in
    /// turn.
    pub fn create_element(&mut self, name: QualName, attrs: Vec<Attribute>) -> (handle: Handle<'d>)
        requires
            old(self).wf(),
        ensures
            final(self).wf(),
            handle matches Handle::Element(e, cached) && cached == name && !old(self).dom().nodes.contains(
                ChildOfElement::Element(e),
            ) && final(self).dom() == old(self).dom().with_element(
                e,
                dom_name(name@),
                with_attributes(Map::empty(), attrs@),
            ),
            final(self).errors() == old(self).errors(),
            final(self).current_line() == old(self).current_line(),
    {
        let qname = qualname_as_qname(&name);
        let elem = sxd::create_element(&mut self.arena, &qname);
        let ghost before = old(self).dom();
        let ghost made_name = dom_name(name@);
        proof {
            before.lemma_allocated_wf(ChildOfElement::Element(elem), self.dom());
            assert(attrs@.take(0) =~= Seq::<Attribute>::empty());
        }
        let mut i: usize = 0;
        while i < attrs.len()
            invariant
                0 <= i <= attrs.len(),
                self.dom().wf(),
                self.dom() == before.with_element(elem, made_name, with_attributes(Map::empty(), attrs@.take(i as int))),
                self.errors == old(self).errors,
                self.current_line == old(self).current_line,
            decreases attrs.len() - i,
        {
            let attr = &attrs[i];
            let qname = qualname_as_qname(&attr.name);
            let ghost current = self.dom();
            sxd::element_set_attribute_value(&mut self.arena, &elem, &qname, attr.value.as_str());
            proof {
                let done = attrs@.take(i as int);
                let next = attrs@.take(i + 1);
                assert(next.drop_last() =~= done);
                assert(next.last() == attrs@[i as int]);
                assert(self.dom().attributes =~= before.attributes.insert(elem, with_attributes(Map::empty(), next)));
                assert(self.dom().attributes.dom() =~= current.attributes.dom());
                current.lemma_same_links_wf(self.dom());
            }
            i += 1;
        }
        proof {
            assert(attrs@.take(attrs@.len() as int) =~= attrs@);
        }
        Handle::Element(elem, name)
    }

    /// Allocates a comment.
    pub fn create_comment(&mut self, text: &str) -> (handle: Handle<'d>)
        requires
            old(self).wf(),
        ensures
            final(self).wf(),
            handle matches Handle::Comment(c) && !old(self).dom().nodes.contains(ChildOfElement::Comment(c))
                && final(self).dom() == old(self).dom().with_comment(c, text@),
            final(self).errors() == old(self).errors(),
            final(self).current_line() == old(self).current_line(),
    {
        let comment = sxd::create_comment(&mut self.arena, text);
        proof {
            old(self).dom().lemma_allocated_wf(ChildOfElement::Comment(comment), self.dom());
        }
        Handle::Comment(comment)
    }

    /// Allocates a processing instruction; empty data counts as no data.
    pub fn create_pi(&mut self, target: &str, data: &str) -> (handle: Handle<'d>)
        requires
            old(self).wf(),
        ensures
            final(self).wf(),
            handle matches Handle::ProcessingInstruction(p) && !old(self).dom().nodes.contains(
                ChildOfElement::ProcessingInstruction(p),
            ) && final(self).dom() == old(self).dom().with_instruction(
                p,
                target@,
                if data@.len() == 0 {
                    None
                } else {
                    Some(data@)
                },
            ),
            final(self).errors() == old(self).errors(),
            final(self).current_line() == old(self).current_line(),
    {
        let data = if data.is_empty() {
            None
        } else {
            Some(data)
        };
        let pi = sxd::create_processing_instruction(&mut self.arena, target, data);
        proof {
            old(self).dom().lemma_allocated_wf(ChildOfElement::ProcessingInstruction(pi), self.dom());
        }
        Handle::ProcessingInstruction(pi)
    }

    /// Appends a node or text under the document or an element. Text that
    /// follows text is joined to it; anything else becomes a new last child.
    /// Under an element any node can be appended, a text node too; under
    /// the document only an element, a comment or a processing instruction.
    pub fn append(&mut self, parent: &Handle<'d>, child: NodeOrText<'d>)
        requires
            old(self).wf(),
            parent is Document || parent is Element,
            parent.within(old(self).dom()),
            child.is_appendable(),
            child.within(old(self).dom()),
            parent is Document ==> child.is_appendable_to_root(),
        ensures
            final(self).wf(),
            old(self).dom().with_appended(parent.as_parent()->Some_0, child.item(), final(self).dom()),
            old(self).dom().nodes.subset_of(final(self).dom().nodes),
            parent is Element && !child.is_text_node() ==> final(self).dom().content(parent.as_parent()->Some_0)
                == append_item(old(self).dom().content(parent.as_parent()->Some_0), child.item()),
            parent is Document ==> final(self).dom().content(ParentOfChild::Root) == append_root_item(
                old(self).dom().content(ParentOfChild::Root),
                child.item(),
            ),
            final(self).errors() == old(self).errors(),
            final(self).current_line() == old(self).current_line(),
    {
        match parent {
            Handle::Document => {
                util::parent_of_child_append_node_or_text(&mut self.arena, &ParentOfChild::Root, child);
            },
            Handle::Element(elem, _) => {
                let children = sxd::element_children(&self.arena, elem);
                let n = children.len();
                let last = if n > 0 {
                    Some(children[n - 1])
                } else {
                    None
                };
                match (last, child) {
                    (Some(ChildOfElement::Text(x)), NodeOrText::AppendText(y)) => {
                        assert(old(self).dom().children[ParentOfChild::Element(*elem)].contains(children@.last()));
                        let mut new_text = sxd::text_content(&self.arena, &x);
                        new_text.append(y.as_str());
                        sxd::text_set_content(&mut self.arena, &x, new_text.as_str());
                    },
                    (_, child) => {
                        util::parent_of_child_append_node_or_text(
                            &mut self.arena,
                            &ParentOfChild::Element(*elem),
                            child,
                        );
                    },
                }
            },
            _ => unreached(),
        }
        proof {
            old(self).dom().lemma_with_appended_wf(parent.as_parent()->Some_0, child.item(), self.dom());
            if parent is Element {
                if !child.is_text_node() {
                    old(self).dom().lemma_with_appended_content(parent.as_parent()->Some_0, child.item(), self.dom());
                }
            } else {
                old(self).dom().lemma_with_appended_content_under_root(child.item()->Node_0, self.dom());
            }
        }
    }

    /// Declines: where to append may not depend on whether an element has a
    /// parent.
    pub fn append_based_on_parent_node(
        &mut self,
        element: &Handle<'d>,
        prev_element: &Handle<'d>,
        child: NodeOrText<'d>,
    ) -> (declined: Result<(), Unsupported>)
        ensures
            declined == Err::<(), Unsupported>(Unsupported::AppendBasedOnParentNode),
            *final(self) == *old(self),
    {
        Err(Unsupported::AppendBasedOnParentNode)
    }

    /// Ignores a document type declaration: the DOM has no node for one.
    pub fn append_doctype_to_document(&mut self, name: &str, public_id: &str, system_id: &str)
        ensures
            *final(self) == *old(self),
    {
    }

    /// Declines: template contents are not kept.
    pub fn get_template_contents(&mut self, target: &Handle<'d>) -> (declined: Result<Handle<'d>, Unsupported>)
        ensures
            declined == Err::<Handle<'d>, Unsupported>(Unsupported::TemplateContents),
            *final(self) == *old(self),
    {
        Err(Unsupported::TemplateContents)
    }

    /// The parent of the node behind a handle, if it has one.
    pub fn parent_of(&self, target: &Handle<'d>) -> (parent: Option<ParentOfChild<'d>>)
        requires
            !(target is Document),
            target.within(self.dom()),
        ensures
            parent == self.dom().parent[target.node()->Some_0],
    {
        target.parent(&self.arena)
    }

    /// Whether the two handles refer to the same node.
    pub fn same_node(&self, x: &Handle<'d>, y: &Handle<'d>) -> (same: bool)
        ensures
            same == (x.node() == y.node()),
    {
        x.same_node(y)
    }

    /// Ignores the quirks mode.
    pub fn set_quirks_mode(&mut self, mode: QuirksMode)
        ensures
            *final(self) == *old(self),
    {
    }

    /// Inserts a node or text before a node that has a parent. The node and
    /// the siblings after it are removed from the parent, what is inserted is
    /// appended, and then the removed nodes are appended again in their
    /// order; text among them is appended as text, so that text that comes
    /// to stand next to text is joined to it. The node may be a text node.
    /// Where nothing is joined, moved or driven out, the new content stands
    /// between what came before the node and the node with what came after
    /// it; the children before the node stay the nodes they were.
    pub fn append_before_sibling(&mut self, sibling: &Handle<'d>, new_node: NodeOrText<'d>)
        requires
            old(self).wf(),
            !(sibling is Document),
            sibling.within(old(self).dom()),
            old(self).dom().parent[sibling.node()->Some_0] is Some,
            old(self).dom().linked(sibling.node()->Some_0),
            new_node.is_appendable(),
            new_node.within(old(self).dom()),
            old(self).dom().parent[sibling.node()->Some_0] == Some(ParentOfChild::Root)
                ==> new_node.is_appendable_to_root(),
        ensures
            final(self).wf(),
            old(self).dom().with_inserted_before(sibling.node()->Some_0, new_node.item(), final(self).dom()),
            old(self).dom().nodes.subset_of(final(self).dom().nodes),
            !new_node.is_text_node() ==> ({
                let p = old(self).dom().parent[sibling.node()->Some_0]->Some_0;
                let before = old(self).dom().content(p);
                let k = position(old(self).dom().children[p], sibling.node()->Some_0);
                &&& final(self).dom().content(p) == if p is Element {
                    append_items(append_item(before.take(k), new_node.item()), before.skip(k))
                } else {
                    append_root_items(append_root_item(before.take(k), new_node.item()), before.skip(k))
                }
                &&& (if p is Element {
                    inserts_plainly(before, k, new_node.item())
                } else {
                    inserts_plainly_under_root(before, k, new_node.item())
                }) ==> final(self).dom().content(p) == before.take(k).push(new_node.item()) + before.skip(k)
            }),
            ({
                let p = old(self).dom().parent[sibling.node()->Some_0]->Some_0;
                let children = old(self).dom().children[p];
                let k = position(children, sibling.node()->Some_0);
                p is Element && (new_node matches NodeOrText::AppendNode(h) ==> !children.take(k).contains(
                    h.node()->Some_0,
                )) && (new_node is AppendText ==> k == 0 || !(children[k - 1] is Text)) ==> old(self).dom().keeps_front(
                    p,
                    k,
                    final(self).dom(),
                )
            }),
            final(self).errors() == old(self).errors(),
            final(self).current_line() == old(self).current_line(),
    {
        let ghost before = self.dom();
        let ghost c = sibling.node()->Some_0;
        let ghost p = before.parent[c]->Some_0;
        let ghost item = new_node.item();
        let parent = sibling.parent(&self.arena).expect("must have a parent");
        let mut children: Vec<ChildOfElement<'d>> = Vec::new();
        children.push(ChildOfElement::from_handle(sibling.clone()));
        let mut following = sibling.following_siblings(&self.arena);
        children.append(&mut following);
        let ghost moved = children@;
        proof {
            assert(moved =~= seq![c] + before.following(c));
            before.lemma_detached_from(c);
            assert forall|i: int| 0 <= i < moved.len() implies before.nodes.contains(#[trigger] moved[i]) && (p is Root
                ==> !(moved[i] is Text)) by {
                let k = position(before.children[p], c);
                assert(before.children[p].contains(before.children[p][k + i]));
            }
            assert(moved.take(0) =~= Seq::empty());
        }
        let mut i: usize = 0;
        while i < children.len()
            invariant
                0 <= i <= children.len(),
                children@ == moved,
                before.wf(),
                self.dom().wf(),
                self.dom().nodes == before.nodes,
                self.dom() == before.detached_all(moved.take(i as int)),
                forall|j: int| 0 <= j < moved.len() ==> before.nodes.contains(#[trigger] moved[j]),
                self.errors == old(self).errors,
                self.current_line == old(self).current_line,
            decreases children.len() - i,
        {
            proof {
                self.dom().lemma_detached(moved[i as int]);
                assert(moved.take(i + 1).drop_last() =~= moved.take(i as int));
            }
            util::child_of_element_remove_from_parent(&mut self.arena, &children[i]);
            i += 1;
        }
        proof {
            assert(moved.take(moved.len() as int) =~= moved);
        }
        let parent_handle = Handle::from_parent(&self.arena, parent);
        self.append(&parent_handle, new_node);
        let ghost inserted = self.dom();
        proof {
            assert(moved.take(0) =~= Seq::empty());
        }
        let mut i: usize = 0;
        while i < children.len()
            invariant
                0 <= i <= children.len(),
                children@ == moved,
                self.wf(),
                parent_handle.as_parent() == Some(p),
                parent_handle is Document || parent_handle is Element,
                parent_handle.within(self.dom()),
                inserted.with_reappended(p, moved.take(i as int), self.dom()),
                before.nodes.subset_of(self.dom().nodes),
                forall|j: int| 0 <= j < moved.len() ==> before.nodes.contains(#[trigger] moved[j]),
                forall|j: int| 0 <= j < moved.len() ==> (p is Root ==> !((#[trigger] moved[j]) is Text)),
                self.errors() == old(self).errors(),
                self.current_line() == old(self).current_line(),
            decreases children.len() - i,
        {
            let ghost current = self.dom();
            let child = children[i];
            assert(before.nodes.contains(moved[i as int]));
            let node_or_text = match child {
                ChildOfElement::Text(t) => NodeOrText::AppendText(sxd::text_content(&self.arena, &t)),
                coe => NodeOrText::AppendNode(Handle::from_child(&self.arena, coe)),
            };
            assert(node_or_text.item() == current.item_of(child));
            self.append(&parent_handle, node_or_text);
            proof {
                assert(moved.take(i + 1).drop_last() =~= moved.take(i as int));
                assert(moved.take(i + 1).last() == child);
                assert(inserted.with_reappended(p, moved.take(i + 1).drop_last(), current) && current.with_appended(
                    p,
                    current.item_of(moved.take(i + 1).last()),
                    self.dom(),
                ));
            }
            i += 1;
        }
        proof {
            assert(moved.take(moved.len() as int) =~= moved);
            assert(before.detached_all(moved).with_appended(p, item, inserted) && inserted.with_reappended(
                p,
                moved,
                self.dom(),
            ));
            let items = before.content(p);
            let k = position(before.children[p], c);
            if new_node.is_text_node() {
            } else if p is Element {
                before.lemma_with_inserted_before_content(c, item, self.dom());
                if inserts_plainly(items, k, item) {
                    if k > 0 {
                        assert(items.take(k).last() == items[k - 1]);
                    }
                    lemma_insert_between(items.take(k), item, items.skip(k));
                }
            } else {
                before.lemma_with_inserted_before_content_under_root(c, item->Node_0, self.dom());
                if inserts_plainly_under_root(items, k, item) {
                    let all = items.take(k).push(item) + items.skip(k);
                    assert forall|i: int| 0 <= i < all.len() implies (#[trigger] all[i]) is Node by {
                        if i < k {
                            assert(all[i] == items[i]);
                        } else if i > k {
                            assert(all[i] == items[i - 1]);
                        }
                    }
                    lemma_insert_between_under_root(items.take(k), item, items.skip(k));
                }
            }
            if p is Element && (item matches Item::Node(x) ==> !before.children[p].take(k).contains(x)) && (item is Text
                ==> k == 0 || !(before.children[p][k - 1] is Text)) {
                before.lemma_with_inserted_before_keeps_front(c, item, self.dom());
            }
        }
    }

    /// Sets each attribute that the element does not have yet; an attribute
    /// that it has keeps its value. Of several new attributes with one name
    /// the first is taken.
    pub fn add_attrs_if_missing(&mut self, target: &Handle<'d>, attrs: Vec<Attribute>)
        requires
            old(self).wf(),
            target is Element,
            target.within(old(self).dom()),
        ensures
            final(self).wf(),
            final(self).dom() == old(self).dom().with_attributes_of(
                target->Element_0,
                with_missing_attributes(old(self).dom().attributes[target->Element_0], attrs@),
            ),
            ({
                let e = target->Element_0;
                let had = old(self).dom().attributes[e];
                let after = final(self).dom();
                &&& forall|name: QNameView|
                    had.contains_key(name) ==> #[trigger] after.attribute_value(e, name) == Some(had[name])
                &&& forall|i: int|
                    0 <= i < attrs@.len() ==> after.attributes[e].contains_key(dom_name(#[trigger] attrs@[i].name@))
                &&& forall|i: int|
                    0 <= i < attrs@.len() && !had.contains_key(dom_name(attrs@[i].name@)) && (forall|j: int|
                        0 <= j < i ==> dom_name(attrs@[j].name@) != dom_name(attrs@[i].name@))
                        ==> after.attribute_value(e, dom_name(#[trigger] attrs@[i].name@)) == Some(attrs@[i].value@)
            }),
            final(self).errors() == old(self).errors(),
            final(self).current_line() == old(self).current_line(),
    {
        let elem = target.element_ref();
        let ghost before = self.dom();
        let ghost had = before.attributes[*elem];
        proof {
            assert(attrs@.take(0) =~= Seq::<Attribute>::empty());
            assert(before.attributes.insert(*elem, had) =~= before.attributes);
        }
        let mut i: usize = 0;
        while i < attrs.len()
            invariant
                0 <= i <= attrs.len(),
                before.wf(),
                before.nodes.contains(ChildOfElement::Element(*elem)),
                had == before.attributes[*elem],
                self.dom() == before.with_attributes_of(*elem, with_missing_attributes(had, attrs@.take(i as int))),
                self.errors == old(self).errors,
                self.current_line == old(self).current_line,
            decreases attrs.len() - i,
        {
            let attr = &attrs[i];
            let qname = qualname_as_qname(&attr.name);
            proof {
                assert(attrs@.take(i + 1).drop_last() =~= attrs@.take(i as int));
            }
            if sxd::element_attribute_value(&self.arena, elem, &qname).is_none() {
                sxd::element_set_attribute_value(&mut self.arena, elem, &qname, attr.value.as_str());
                proof {
                    assert(self.dom().attributes =~= before.attributes.insert(
                        *elem,
                        with_missing_attributes(had, attrs@.take(i + 1)),
                    ));
                }
            }
            i += 1;
        }
        proof {
            assert(attrs@.take(attrs@.len() as int) =~= attrs@);
            assert(self.dom().attributes.dom() =~= before.attributes.dom());
            before.lemma_same_links_wf(self.dom());
            lemma_with_missing_attributes(had, attrs@);
        }
    }

    /// Removes a node from its parent; a node without a parent stays as it
    /// is. Afterwards the node stands in no child list, and the other
    /// children of its former parent keep their order.
    pub fn remove_from_parent(&mut self, target: &Handle<'d>)
        requires
            old(self).wf(),
            !(target is Document),
            target.within(old(self).dom()),
        ensures
            final(self).wf(),
            final(self).dom() == old(self).dom().detached(target.node()->Some_0),
            final(self).dom().parent[target.node()->Some_0] is None,
            forall|q: ParentOfChild<'d>|
                old(self).dom().is_parent(q) ==> !(#[trigger] final(self).dom().children[q]).contains(
                    target.node()->Some_0,
                ),
            forall|q: ParentOfChild<'d>|
                old(self).dom().is_parent(q) ==> #[trigger] final(self).dom().children[q] == without(
                    old(self).dom().children[q],
                    target.node()->Some_0,
                ),
            final(self).errors() == old(self).errors(),
            final(self).current_line() == old(self).current_line(),
    {
        proof {
            old(self).dom().lemma_detached(target.node()->Some_0);
        }
        target.remove_from_parent(&mut self.arena);
    }

    /// Moves every child of one element to the end of the child list of
    /// another, in order; the first element has no children afterwards.
    pub fn reparent_children(&mut self, node: &Handle<'d>, new_parent: &Handle<'d>)
        requires
            old(self).wf(),
            node is Element,
            new_parent is Element,
            node.within(old(self).dom()),
            new_parent.within(old(self).dom()),
        ensures
            final(self).wf(),
            ({
                let from = node.as_parent()->Some_0;
                let to = new_parent.as_parent()->Some_0;
                let before = old(self).dom();
                let after = final(self).dom();
                &&& after == before.reparented(from, to)
                &&& from != to ==> after.children[from] == Seq::<ChildOfElement<'d>>::empty()
                &&& from != to ==> after.children[to] == before.children[to] + before.children[from]
                &&& from == to ==> after.children[to] == before.children[from]
                &&& forall|i: int|
                    0 <= i < before.children[from].len() ==> after.parent[#[trigger] before.children[from][i]]
                        == Some(to)
            }),
            final(self).errors() == old(self).errors(),
            final(self).current_line() == old(self).current_line(),
    {
        let node = node.element_ref();
        let new_parent = new_parent.element_ref();
        let ghost before = self.dom();
        let children = sxd::element_children(&self.arena, node);
        sxd::element_clear_children(&mut self.arena, node);
        proof {
            before.lemma_cleared(ParentOfChild::Element(*node));
            assert forall|i: int| 0 <= i < children@.len() implies self.dom().nodes.contains(
                #[trigger] children@[i],
            ) by {
                assert(before.children[ParentOfChild::Element(*node)].contains(children@[i]));
            }
        }
        sxd::element_append_children(&mut self.arena, new_parent, children);
        proof {
            let from = ParentOfChild::Element(*node);
            before.lemma_reparented(from, ParentOfChild::Element(*new_parent));
            assert(Seq::<ChildOfElement<'d>>::empty() + before.children[from] =~= before.children[from]);
            assert forall|i: int| 0 <= i < before.children[from].len() implies before.children[from].contains(
                #[trigger] before.children[from][i],
            ) by {}
        }
    }
}

} // verus!
