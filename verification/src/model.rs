//! The mathematical model of a DOM document: which nodes exist, how they are
//! linked, and what they hold.

use crate::name::{dom_name, Attribute, QNameView};
use sxd_document::dom::{Comment, Document, Element, ProcessingInstruction, Text};
use sxd_document::Package;
use vstd::prelude::*;

verus! {

/// The one handle to the arena of a package: it holds the package's
/// `sxd_document` document and can be neither copied nor cloned. What the
/// arena currently holds is described by [`dom_view`].
#[verifier::external_body]
pub struct Arena<'d> {
    pub(crate) document: Document<'d>,
}

/// An element node of an `sxd_document` document.
#[verifier::external_type_specification]
#[verifier::external_body]
pub struct ExElement<'d>(Element<'d>);

/// A text node of an `sxd_document` document.
#[verifier::external_type_specification]
#[verifier::external_body]
pub struct ExText<'d>(Text<'d>);

/// A comment node of an `sxd_document` document.
#[verifier::external_type_specification]
#[verifier::external_body]
pub struct ExComment<'d>(Comment<'d>);

/// A processing-instruction node of an `sxd_document` document.
#[verifier::external_type_specification]
#[verifier::external_body]
pub struct ExProcessingInstruction<'d>(ProcessingInstruction<'d>);

/// An `sxd_document` package: the arena that a document is a handle to.
#[verifier::external_type_specification]
#[verifier::external_body]
pub struct ExPackage(Package);

/// A node that can have children: the document root or an element.
#[derive(Clone, Copy, Debug)]
pub enum ParentOfChild<'d> {
    Root,
    Element(Element<'d>),
}

/// A node that can be a child of the document root.
#[derive(Clone, Copy, Debug)]
pub enum ChildOfRoot<'d> {
    Element(Element<'d>),
    Comment(Comment<'d>),
    ProcessingInstruction(ProcessingInstruction<'d>),
}

/// A node that can be a child of an element.
#[derive(Clone, Copy, Debug)]
pub enum ChildOfElement<'d> {
    Element(Element<'d>),
    Text(Text<'d>),
    Comment(Comment<'d>),
    ProcessingInstruction(ProcessingInstruction<'d>),
}

impl<'d> ChildOfRoot<'d> {
    /// The same node, seen as a possible child of an element.
    pub open spec fn as_child(self) -> ChildOfElement<'d> {
        match self {
            ChildOfRoot::Element(e) => ChildOfElement::Element(e),
            ChildOfRoot::Comment(c) => ChildOfElement::Comment(c),
            ChildOfRoot::ProcessingInstruction(p) => ChildOfElement::ProcessingInstruction(p),
        }
    }
}

/// What an append instruction carries, and what a child amounts to when only
/// content matters: a node by its identity, text by its characters.
pub enum Item<'d> {
    Node(ChildOfElement<'d>),
    Text(Seq<char>),
}

/// The state of a document.
pub struct Dom<'d> {
    /// The nodes allocated in the document, the root excepted.
    pub nodes: Set<ChildOfElement<'d>>,
    /// The parent link stored in each node.
    pub parent: Map<ChildOfElement<'d>, Option<ParentOfChild<'d>>>,
    /// The ordered child list stored in the root and in each element.
    pub children: Map<ParentOfChild<'d>, Seq<ChildOfElement<'d>>>,
    /// The name of each element.
    pub names: Map<Element<'d>, QNameView>,
    /// The attributes of each element, by name.
    pub attributes: Map<Element<'d>, Map<QNameView, Seq<char>>>,
    /// The content of each text node.
    pub text: Map<Text<'d>, Seq<char>>,
    /// The content of each comment.
    pub comments: Map<Comment<'d>, Seq<char>>,
    /// The target and the data of each processing instruction.
    pub instructions: Map<ProcessingInstruction<'d>, (Seq<char>, Option<Seq<char>>)>,
}

/// The state of the arena.
pub uninterp spec fn dom_view(arena: Arena<'_>) -> Dom<'_>;

/// The state of the arena of `package`.
pub uninterp spec fn package_view(package: Package) -> Dom<'static>;

/// `s` without every occurrence of `x`, the rest in order.
pub open spec fn without<A>(s: Seq<A>, x: A) -> Seq<A> {
    s.filter(|y: A| y != x)
}

/// `s` without its element nodes, the rest in order.
pub open spec fn non_elements<'d>(s: Seq<ChildOfElement<'d>>) -> Seq<ChildOfElement<'d>> {
    s.filter(|c: ChildOfElement<'d>| !(c is Element))
}

/// The index of the first occurrence of `x` in `s`, or the length of `s`
/// where there is none.
pub open spec fn position<A>(s: Seq<A>, x: A) -> int
    decreases s.len(),
{
    if s.len() == 0 {
        0
    } else if s[0] == x {
        0
    } else {
        1 + position(s.skip(1), x)
    }
}

/// The parent links `parent`, with the link of each of `cs` set to `target`.
pub open spec fn relinked<'d>(
    parent: Map<ChildOfElement<'d>, Option<ParentOfChild<'d>>>,
    cs: Seq<ChildOfElement<'d>>,
    target: Option<ParentOfChild<'d>>,
) -> Map<ChildOfElement<'d>, Option<ParentOfChild<'d>>>
    decreases cs.len(),
{
    if cs.len() == 0 {
        parent
    } else {
        relinked(parent, cs.drop_last(), target).insert(cs.last(), target)
    }
}

/// The attributes `attributes` after each of `more` was set in turn: a later
/// value replaces an earlier one of the same name.
pub open spec fn with_attributes(attributes: Map<QNameView, Seq<char>>, more: Seq<Attribute>) -> Map<
    QNameView,
    Seq<char>,
>
    decreases more.len(),
{
    if more.len() == 0 {
        attributes
    } else {
        with_attributes(attributes, more.drop_last()).insert(dom_name(more.last().name@), more.last().value@)
    }
}

/// The attributes `attributes` after each of `more` was added in turn unless
/// an attribute of its name was there already.
pub open spec fn with_missing_attributes(attributes: Map<QNameView, Seq<char>>, more: Seq<Attribute>) -> Map<
    QNameView,
    Seq<char>,
>
    decreases more.len(),
{
    if more.len() == 0 {
        attributes
    } else {
        let so_far = with_missing_attributes(attributes, more.drop_last());
        if so_far.contains_key(dom_name(more.last().name@)) {
            so_far
        } else {
            so_far.insert(dom_name(more.last().name@), more.last().value@)
        }
    }
}

/// The content list that results from appending `item` to the content list
/// `items`: text joins a text item that comes last, a node leaves the place
/// it had and goes to the end, anything else is added at the end.
pub open spec fn append_item<'d>(items: Seq<Item<'d>>, item: Item<'d>) -> Seq<Item<'d>> {
    match item {
        Item::Text(s) => {
            if items.len() > 0 && items.last() is Text {
                items.drop_last().push(Item::Text(items.last()->Text_0 + s))
            } else {
                items.push(item)
            }
        },
        Item::Node(_) => without(items, item).push(item),
    }
}

/// The content list that results from appending each of `more` to `items`,
/// one after the other.
pub open spec fn append_items<'d>(items: Seq<Item<'d>>, more: Seq<Item<'d>>) -> Seq<Item<'d>>
    decreases more.len(),
{
    if more.len() == 0 {
        items
    } else {
        append_item(append_items(items, more.drop_last()), more.last())
    }
}

/// Whether the item is an element.
pub open spec fn is_element_item<'d>(item: Item<'d>) -> bool {
    item matches Item::Node(c) && c is Element
}

/// `items` without the elements, the rest in order.
pub open spec fn non_element_items<'d>(items: Seq<Item<'d>>) -> Seq<Item<'d>> {
    items.filter(|item: Item<'d>| !is_element_item(item))
}

/// The content list that results from appending the node `item` to the
/// content list `items` of the root: the root keeps one element at most, so
/// an element that arrives drives out the elements that are there; then the
/// node leaves the place it had and goes to the end.
pub open spec fn append_root_item<'d>(items: Seq<Item<'d>>, item: Item<'d>) -> Seq<Item<'d>> {
    if is_element_item(item) {
        without(non_element_items(items), item).push(item)
    } else {
        without(items, item).push(item)
    }
}

/// The content list that results from appending each node of `more` to the
/// content list `items` of the root, one after the other.
pub open spec fn append_root_items<'d>(items: Seq<Item<'d>>, more: Seq<Item<'d>>) -> Seq<Item<'d>>
    decreases more.len(),
{
    if more.len() == 0 {
        items
    } else {
        append_root_item(append_root_items(items, more.drop_last()), more.last())
    }
}

impl<'d> Dom<'d> {
    /// The state of a document that holds nothing but its root.
    pub open spec fn empty() -> Dom<'d> {
        Dom {
            nodes: Set::empty(),
            parent: Map::empty(),
            children: Map::empty().insert(ParentOfChild::Root, Seq::empty()),
            names: Map::empty(),
            attributes: Map::empty(),
            text: Map::empty(),
            comments: Map::empty(),
            instructions: Map::empty(),
        }
    }

    /// Whether `p` is the root or an element of this document.
    pub open spec fn is_parent(self, p: ParentOfChild<'d>) -> bool {
        match p {
            ParentOfChild::Root => true,
            ParentOfChild::Element(e) => self.nodes.contains(ChildOfElement::Element(e)),
        }
    }

    /// The links are consistent: the root and every element have a child
    /// list, every node has a parent link and every element has attributes,
    /// whatever stands in a child list
    /// belongs to the document and names that parent, no child list holds a
    /// node twice, a parent link leads to a node of the document, and
    /// directly under the root stand no text and one element at most.
    pub open spec fn wf(self) -> bool {
        &&& forall|p: ParentOfChild<'d>| self.is_parent(p) ==> #[trigger] self.children.dom().contains(p)
        &&& forall|c: ChildOfElement<'d>| self.nodes.contains(c) ==> #[trigger] self.parent.dom().contains(c)
        &&& forall|e: Element<'d>|
            self.nodes.contains(ChildOfElement::Element(e)) ==> #[trigger] self.attributes.dom().contains(e)
        &&& forall|p: ParentOfChild<'d>, c: ChildOfElement<'d>|
            self.is_parent(p) && #[trigger] self.children[p].contains(c) ==> self.nodes.contains(c)
                && self.parent[c] == Some(p)
        &&& forall|p: ParentOfChild<'d>|
            self.is_parent(p) ==> (#[trigger] self.children[p]).no_duplicates()
        &&& forall|c: ChildOfElement<'d>|
            self.nodes.contains(c) ==> ((#[trigger] self.parent[c]) matches Some(p) ==> self.is_parent(p))
        &&& forall|c: ChildOfElement<'d>| #[trigger]
            self.children[ParentOfChild::Root].contains(c) ==> !(c is Text)
        &&& forall|a: ChildOfElement<'d>, b: ChildOfElement<'d>|
            a is Element && b is Element && #[trigger] self.children[ParentOfChild::Root].contains(a)
                && #[trigger] self.children[ParentOfChild::Root].contains(b) ==> a == b
    }

    /// Whether `c` stands in the child list of the parent it names, if it
    /// names one.
    pub open spec fn linked(self, c: ChildOfElement<'d>) -> bool {
        self.parent[c] matches Some(p) ==> self.children[p].contains(c)
    }

    /// The siblings that come after `c` under its parent, in order; none for
    /// a node without a parent.
    pub open spec fn following(self, c: ChildOfElement<'d>) -> Seq<ChildOfElement<'d>> {
        match self.parent[c] {
            None => Seq::empty(),
            Some(p) => self.children[p].skip(position(self.children[p], c) + 1),
        }
    }

    /// The value of the attribute `name` of `e`, if it has one.
    pub open spec fn attribute_value(self, e: Element<'d>, name: QNameView) -> Option<Seq<char>> {
        if self.attributes[e].contains_key(name) {
            Some(self.attributes[e][name])
        } else {
            None
        }
    }

    /// What the child `c` amounts to as content.
    pub open spec fn item_of(self, c: ChildOfElement<'d>) -> Item<'d> {
        match c {
            ChildOfElement::Text(t) => Item::Text(self.text[t]),
            _ => Item::Node(c),
        }
    }

    /// What each of `cs` amounts to as content.
    pub open spec fn items_of(self, cs: Seq<ChildOfElement<'d>>) -> Seq<Item<'d>> {
        cs.map_values(|c: ChildOfElement<'d>| self.item_of(c))
    }

    /// The content under `p`, child by child.
    pub open spec fn content(self, p: ParentOfChild<'d>) -> Seq<Item<'d>> {
        self.items_of(self.children[p])
    }

    /// Whether in state `after` the first `k` children of `p` are the nodes
    /// they are now, with `p` as their parent and, where they are text, with
    /// the characters they hold now.
    pub open spec fn keeps_front(self, p: ParentOfChild<'d>, k: int, after: Dom<'d>) -> bool {
        &&& after.children[p].len() >= k
        &&& after.children[p].take(k) == self.children[p].take(k)
        &&& forall|i: int| 0 <= i < k ==> after.parent[#[trigger] self.children[p][i]] == Some(p)
        &&& forall|i: int|
            0 <= i < k ==> ((#[trigger] self.children[p][i]) matches ChildOfElement::Text(t) ==> after.text[t]
                == self.text[t])
    }

    /// The state after the element `e` was allocated, with the given name
    /// and attributes and without children.
    pub open spec fn with_element(
        self,
        e: Element<'d>,
        name: QNameView,
        attributes: Map<QNameView, Seq<char>>,
    ) -> Dom<'d> {
        Dom {
            nodes: self.nodes.insert(ChildOfElement::Element(e)),
            parent: self.parent.insert(ChildOfElement::Element(e), None),
            children: self.children.insert(ParentOfChild::Element(e), Seq::empty()),
            names: self.names.insert(e, name),
            attributes: self.attributes.insert(e, attributes),
            ..self
        }
    }

    /// The state after the text node `t` holding `content` was allocated.
    pub open spec fn with_text(self, t: Text<'d>, content: Seq<char>) -> Dom<'d> {
        Dom {
            nodes: self.nodes.insert(ChildOfElement::Text(t)),
            parent: self.parent.insert(ChildOfElement::Text(t), None),
            text: self.text.insert(t, content),
            ..self
        }
    }

    /// The state after the comment `c` holding `content` was allocated.
    pub open spec fn with_comment(self, c: Comment<'d>, content: Seq<char>) -> Dom<'d> {
        Dom {
            nodes: self.nodes.insert(ChildOfElement::Comment(c)),
            parent: self.parent.insert(ChildOfElement::Comment(c), None),
            comments: self.comments.insert(c, content),
            ..self
        }
    }

    /// The state after the processing instruction `p` was allocated.
    pub open spec fn with_instruction(
        self,
        p: ProcessingInstruction<'d>,
        target: Seq<char>,
        data: Option<Seq<char>>,
    ) -> Dom<'d> {
        Dom {
            nodes: self.nodes.insert(ChildOfElement::ProcessingInstruction(p)),
            parent: self.parent.insert(ChildOfElement::ProcessingInstruction(p), None),
            instructions: self.instructions.insert(p, (target, data)),
            ..self
        }
    }

    /// The state after the content of the text node `t` was replaced.
    pub open spec fn with_text_set(self, t: Text<'d>, content: Seq<char>) -> Dom<'d> {
        Dom { text: self.text.insert(t, content), ..self }
    }

    /// The state after the attributes of `e` became `attributes`.
    pub open spec fn with_attributes_of(self, e: Element<'d>, attributes: Map<QNameView, Seq<char>>) -> Dom<'d> {
        Dom { attributes: self.attributes.insert(e, attributes), ..self }
    }

    /// The state after the attribute `name` of `e` was set to `value`.
    pub open spec fn with_attribute(self, e: Element<'d>, name: QNameView, value: Seq<char>) -> Dom<'d> {
        self.with_attributes_of(e, self.attributes[e].insert(name, value))
    }

    /// The state after `c` was struck from the child list of the parent it
    /// names, its own parent link left as it is.
    pub open spec fn unlisted(self, c: ChildOfElement<'d>) -> Dom<'d> {
        match self.parent[c] {
            None => self,
            Some(p) => Dom { children: self.children.insert(p, without(self.children[p], c)), ..self },
        }
    }

    /// The state after `c` was removed from its parent: a node without a
    /// parent stays as it is.
    pub open spec fn detached(self, c: ChildOfElement<'d>) -> Dom<'d> {
        Dom {
            parent: if self.parent[c] is Some {
                self.parent.insert(c, None)
            } else {
                self.parent
            },
            ..self.unlisted(c)
        }
    }

    /// The state after each of `cs` was removed from its parent, in turn.
    pub open spec fn detached_all(self, cs: Seq<ChildOfElement<'d>>) -> Dom<'d>
        decreases cs.len(),
    {
        if cs.len() == 0 {
            self
        } else {
            self.detached_all(cs.drop_last()).detached(cs.last())
        }
    }

    /// The state after `c` was appended under `p`: it leaves the child list
    /// it stood in, names `p` as its parent and comes last under `p`.
    pub open spec fn appended(self, p: ParentOfChild<'d>, c: ChildOfElement<'d>) -> Dom<'d> {
        let d = self.unlisted(c);
        Dom {
            parent: d.parent.insert(c, Some(p)),
            children: d.children.insert(p, d.children[p].push(c)),
            ..d
        }
    }

    /// The state after each of `cs` was appended under `p`, in turn.
    pub open spec fn appended_all(self, p: ParentOfChild<'d>, cs: Seq<ChildOfElement<'d>>) -> Dom<'d>
        decreases cs.len(),
    {
        if cs.len() == 0 {
            self
        } else {
            self.appended_all(p, cs.drop_last()).appended(p, cs.last())
        }
    }

    /// The state after `c` was appended under the root. The root keeps at
    /// most one element: an element that arrives strikes every element from
    /// the root's child list first, and their parent links stay as they are.
    pub open spec fn appended_to_root(self, c: ChildOfElement<'d>) -> Dom<'d> {
        let d = if c is Element {
            Dom {
                children: self.children.insert(
                    ParentOfChild::Root,
                    non_elements(self.children[ParentOfChild::Root]),
                ),
                ..self
            }
        } else {
            self
        };
        d.appended(ParentOfChild::Root, c)
    }

    /// The state after the child list of `p` was emptied: each node that
    /// stood in it loses its parent link.
    pub open spec fn cleared(self, p: ParentOfChild<'d>) -> Dom<'d> {
        Dom {
            parent: relinked(self.parent, self.children[p], None),
            children: self.children.insert(p, Seq::empty()),
            ..self
        }
    }

    /// The state after every child of the element `from` was moved to the
    /// end of the child list of the element `to`, in order.
    pub open spec fn reparented(self, from: ParentOfChild<'d>, to: ParentOfChild<'d>) -> Dom<'d> {
        let moved = self.children[from];
        let kept = if from == to {
            Seq::empty()
        } else {
            self.children[to]
        };
        Dom {
            parent: relinked(self.parent, moved, Some(to)),
            children: self.children.insert(from, Seq::empty()).insert(to, kept + moved),
            ..self
        }
    }

    /// Whether `after` is a state that appending `item` under `p` can lead
    /// to. Under the root only a node can be appended. Under an element,
    /// text is joined to a text node that comes last, and otherwise put into
    /// a text node that did not exist before; a node is moved to the end.
    pub open spec fn with_appended(self, p: ParentOfChild<'d>, item: Item<'d>, after: Dom<'d>) -> bool {
        match item {
            Item::Node(c) => {
                if p is Root {
                    after == self.appended_to_root(c)
                } else {
                    after == self.appended(p, c)
                }
            },
            Item::Text(s) => {
                if p is Root {
                    false
                } else if self.children[p].len() > 0 && self.children[p].last() is Text {
                    after == self.with_text_set(
                        self.children[p].last()->Text_0,
                        self.text[self.children[p].last()->Text_0] + s,
                    )
                } else {
                    self.with_new_text(p, s, after)
                }
            },
        }
    }

    /// Whether `after` is a state that putting `s` into a text node that did
    /// not exist before, and appending that node under `p`, can lead to.
    pub open spec fn with_new_text(self, p: ParentOfChild<'d>, s: Seq<char>, after: Dom<'d>) -> bool {
        exists|t: Text<'d>|
            !self.nodes.contains(ChildOfElement::Text(t)) && after == #[trigger] self.with_text(t, s).appended(
                p,
                ChildOfElement::Text(t),
            )
    }

    /// Whether `after` is a state that appending the content of each of `cs`
    /// under `p` can lead to, in turn: a text node's characters as they are
    /// when its turn comes, any other node itself.
    pub open spec fn with_reappended(
        self,
        p: ParentOfChild<'d>,
        cs: Seq<ChildOfElement<'d>>,
        after: Dom<'d>,
    ) -> bool
        decreases cs.len(),
    {
        if cs.len() == 0 {
            after == self
        } else {
            exists|mid: Dom<'d>|
                self.with_reappended(p, cs.drop_last(), mid) && #[trigger] mid.with_appended(
                    p,
                    mid.item_of(cs.last()),
                    after,
                )
        }
    }

    /// Whether `after` is a state that inserting `item` before the node `c`
    /// can lead to: `c` and the siblings after it are removed from their
    /// parent, `item` is appended under it, and then the content of each
    /// removed node is appended again, in the order they stood in.
    pub open spec fn with_inserted_before(self, c: ChildOfElement<'d>, item: Item<'d>, after: Dom<'d>) -> bool {
        let p = self.parent[c]->Some_0;
        let moved = seq![c] + self.following(c);
        exists|mid: Dom<'d>| #[trigger]
            self.detached_all(moved).with_appended(p, item, mid) && mid.with_reappended(p, moved, after)
    }
}

} // verus!
