//! Facts about the model that the proofs of the sink's operations rest on.

use crate::model::{
    non_elements, position, relinked, with_missing_attributes, without, ChildOfElement, Dom, Item, ParentOfChild,
};
use crate::name::{dom_name, Attribute, QNameView};
use sxd_document::dom::Text;
use vstd::prelude::*;

verus! {

/// A filtered sequence holds exactly the members that meet the predicate.
pub proof fn lemma_filter_members<A>(s: Seq<A>, pred: spec_fn(A) -> bool)
    ensures
        forall|y: A| #[trigger] s.filter(pred).contains(y) <==> (s.contains(y) && pred(y)),
    decreases s.len(),
{
    reveal(Seq::filter);
    if s.len() > 0 {
        let front = s.drop_last();
        let kept = front.filter(pred);
        lemma_filter_members(front, pred);
        assert forall|y: A| #[trigger] s.filter(pred).contains(y) <==> (s.contains(y) && pred(y)) by {
            if s.contains(y) {
                let i = choose|i: int| 0 <= i < s.len() && s[i] == y;
                if i < s.len() - 1 {
                    assert(front[i] == y);
                }
            }
            if front.contains(y) {
                let i = choose|i: int| 0 <= i < front.len() && front[i] == y;
                assert(s[i] == y);
            }
            assert(s[s.len() - 1] == s.last());
            if pred(s.last()) {
                let all = kept.push(s.last());
                assert(all[kept.len() as int] == s.last());
                if all.contains(y) {
                    let j = choose|j: int| 0 <= j < all.len() && all[j] == y;
                    if j < kept.len() {
                        assert(kept[j] == y);
                    }
                }
                if kept.contains(y) {
                    let j = choose|j: int| 0 <= j < kept.len() && kept[j] == y;
                    assert(all[j] == y);
                }
            }
        }
    }
}

/// Filtering a sequence without duplicates leaves it without duplicates.
pub proof fn lemma_filter_no_duplicates<A>(s: Seq<A>, pred: spec_fn(A) -> bool)
    requires
        s.no_duplicates(),
    ensures
        s.filter(pred).no_duplicates(),
    decreases s.len(),
{
    reveal(Seq::filter);
    if s.len() > 0 {
        let front = s.drop_last();
        let kept = front.filter(pred);
        lemma_filter_no_duplicates(front, pred);
        lemma_filter_members(front, pred);
        if front.contains(s.last()) {
            let i = choose|i: int| 0 <= i < front.len() && front[i] == s.last();
            assert(s[i] == s[s.len() - 1]);
        }
        assert(!kept.contains(s.last()));
        if pred(s.last()) {
            let all = kept.push(s.last());
            assert forall|i: int, j: int| 0 <= i < all.len() && 0 <= j < all.len() && i != j implies all[i]
                != all[j] by {
                if i < kept.len() && j < kept.len() {
                } else if i < kept.len() {
                    assert(kept.contains(kept[i]));
                } else {
                    assert(kept.contains(kept[j]));
                }
            }
        }
    }
}

/// Filtering a sequence whose members all meet the predicate changes
/// nothing.
pub proof fn lemma_filter_all<A>(s: Seq<A>, pred: spec_fn(A) -> bool)
    requires
        forall|i: int| 0 <= i < s.len() ==> pred(#[trigger] s[i]),
    ensures
        s.filter(pred) == s,
    decreases s.len(),
{
    reveal(Seq::filter);
    if s.len() > 0 {
        lemma_filter_all(s.drop_last(), pred);
        assert(s.drop_last().push(s.last()) =~= s);
    }
}

/// Filtering a sequence none of whose members meets the predicate leaves
/// nothing.
pub proof fn lemma_filter_none<A>(s: Seq<A>, pred: spec_fn(A) -> bool)
    requires
        forall|i: int| 0 <= i < s.len() ==> !pred(#[trigger] s[i]),
    ensures
        s.filter(pred) == Seq::<A>::empty(),
    decreases s.len(),
{
    reveal(Seq::filter);
    if s.len() > 0 {
        lemma_filter_none(s.drop_last(), pred);
    }
}

/// What `without` keeps: the members other than `x`, without new
/// duplicates.
pub proof fn lemma_without<A>(s: Seq<A>, x: A)
    ensures
        forall|y: A| #[trigger] without(s, x).contains(y) <==> (s.contains(y) && y != x),
        s.no_duplicates() ==> without(s, x).no_duplicates(),
        !s.contains(x) ==> without(s, x) == s,
        without(s, x).len() <= s.len(),
{
    let pred = |y: A| y != x;
    lemma_filter_members(s, pred);
    if s.no_duplicates() {
        lemma_filter_no_duplicates(s, pred);
    }
    if !s.contains(x) {
        assert forall|i: int| 0 <= i < s.len() implies pred(#[trigger] s[i]) by {
            assert(s.contains(s[i]));
        }
        lemma_filter_all(s, pred);
    }
    s.lemma_filter_len(pred);
}

/// `without` on a sequence that grew by one member.
pub proof fn lemma_without_push<A>(s: Seq<A>, y: A, x: A)
    ensures
        without(s.push(y), x) == if y == x {
            without(s, x)
        } else {
            without(s, x).push(y)
        },
{
    s.lemma_filter_push(y, |y: A| y != x);
}

/// Striking the member at index `i` of a sequence without duplicates leaves
/// what stands before it and what stands after it.
pub proof fn lemma_without_at<A>(s: Seq<A>, i: int)
    requires
        s.no_duplicates(),
        0 <= i < s.len(),
    ensures
        without(s, s[i]) == s.take(i) + s.skip(i + 1),
{
    let x = s[i];
    let pred = |y: A| y != x;
    let a = s.take(i);
    let m = seq![x];
    let b = s.skip(i + 1);
    assert(s =~= a + m + b);
    Seq::filter_distributes_over_add(a + m, b, pred);
    Seq::filter_distributes_over_add(a, m, pred);
    lemma_filter_all(a, pred);
    lemma_filter_all(b, pred);
    lemma_filter_none(m, pred);
    assert(a + Seq::<A>::empty() + b =~= a + b);
}

/// Striking a member that does not stand among the first `k` leaves the
/// first `k` as they are.
pub proof fn lemma_without_keeps_front<A>(s: Seq<A>, x: A, k: int)
    requires
        0 <= k <= s.len(),
        !s.take(k).contains(x),
    ensures
        without(s, x).len() >= k,
        without(s, x).take(k) == s.take(k),
{
    let pred = |y: A| y != x;
    let front = s.take(k);
    let rest = s.skip(k);
    assert(s =~= front + rest);
    Seq::filter_distributes_over_add(front, rest, pred);
    lemma_without(front, x);
    assert((front + without(rest, x)).take(k) =~= front);
}

/// Where `position` points in a sequence that holds `x`: at the first
/// occurrence of `x`.
pub proof fn lemma_position<A>(s: Seq<A>, x: A)
    requires
        s.contains(x),
    ensures
        0 <= position(s, x) < s.len(),
        s[position(s, x)] == x,
        forall|j: int| 0 <= j < position(s, x) ==> s[j] != x,
    decreases s.len(),
{
    if s[0] != x {
        let i = choose|i: int| 0 <= i < s.len() && s[i] == x;
        assert(s.skip(1)[i - 1] == x);
        lemma_position(s.skip(1), x);
        assert forall|j: int| 0 <= j < position(s, x) implies s[j] != x by {
            if j > 0 {
                assert(s.skip(1)[j - 1] == s[j]);
            }
        }
    }
}

/// The links that `relinked` gives: `target` for each of `cs`, the old link
/// for every other node.
pub proof fn lemma_relinked<'d>(
    parent: Map<ChildOfElement<'d>, Option<ParentOfChild<'d>>>,
    cs: Seq<ChildOfElement<'d>>,
    target: Option<ParentOfChild<'d>>,
)
    ensures
        forall|x: ChildOfElement<'d>| #[trigger]
            relinked(parent, cs, target)[x] == if cs.contains(x) {
                target
            } else {
                parent[x]
            },
        forall|x: ChildOfElement<'d>| #[trigger]
            relinked(parent, cs, target).dom().contains(x) <==> (parent.dom().contains(x) || cs.contains(x)),
    decreases cs.len(),
{
    if cs.len() > 0 {
        let front = cs.drop_last();
        lemma_relinked(parent, front, target);
        assert forall|x: ChildOfElement<'d>| cs.contains(x) <==> (front.contains(x) || x == cs.last()) by {
            if cs.contains(x) {
                let i = choose|i: int| 0 <= i < cs.len() && cs[i] == x;
                if i < cs.len() - 1 {
                    assert(front[i] == x);
                }
            }
            if front.contains(x) {
                let i = choose|i: int| 0 <= i < front.len() && front[i] == x;
                assert(cs[i] == x);
            }
            assert(cs[cs.len() - 1] == cs.last());
        }
    }
}

/// Adding attributes where they are missing keeps every attribute that was
/// there with its value, and gives each name that was not there the value of
/// the first attribute in the list that has that name.
pub proof fn lemma_with_missing_attributes(attributes: Map<QNameView, Seq<char>>, more: Seq<Attribute>)
    ensures
        forall|name: QNameView|
            attributes.contains_key(name) ==> #[trigger] with_missing_attributes(attributes, more).contains_key(name),
        forall|name: QNameView|
            attributes.contains_key(name) ==> #[trigger] with_missing_attributes(attributes, more)[name]
                == attributes[name],
        forall|i: int|
            0 <= i < more.len() ==> with_missing_attributes(attributes, more).contains_key(
                dom_name(#[trigger] more[i].name@),
            ),
        forall|i: int|
            0 <= i < more.len() && !attributes.contains_key(dom_name(more[i].name@)) && (forall|j: int|
                0 <= j < i ==> dom_name(more[j].name@) != dom_name(more[i].name@))
                ==> with_missing_attributes(attributes, more)[dom_name(#[trigger] more[i].name@)] == more[i].value@,
        forall|name: QNameView| #[trigger]
            with_missing_attributes(attributes, more).contains_key(name) ==> attributes.contains_key(name) || exists|
                i: int,
            |
                0 <= i < more.len() && dom_name(#[trigger] more[i].name@) == name,
    decreases more.len(),
{
    if more.len() > 0 {
        let front = more.drop_last();
        let last = more.last();
        lemma_with_missing_attributes(attributes, front);
        let so_far = with_missing_attributes(attributes, front);
        let all = with_missing_attributes(attributes, more);
        assert forall|name: QNameView| attributes.contains_key(name) implies #[trigger] all.contains_key(name) by {
            assert(so_far.contains_key(name));
        }
        assert forall|name: QNameView| attributes.contains_key(name) implies #[trigger] all[name]
            == attributes[name] by {
            assert(so_far.contains_key(name));
            assert(so_far[name] == attributes[name]);
        }
        assert forall|i: int| 0 <= i < more.len() implies all.contains_key(dom_name(#[trigger] more[i].name@)) by {
            if i < front.len() {
                assert(front[i] == more[i]);
            }
        }
        assert forall|i: int|
            0 <= i < more.len() && !attributes.contains_key(dom_name(more[i].name@)) && (forall|j: int|
                0 <= j < i ==> dom_name(more[j].name@) != dom_name(more[i].name@)) implies all[dom_name(
            #[trigger] more[i].name@,
        )] == more[i].value@ by {
            if i < front.len() {
                assert(front[i] == more[i]);
                assert forall|j: int| 0 <= j < i implies dom_name(front[j].name@) != dom_name(front[i].name@) by {
                    assert(front[j] == more[j]);
                }
            } else {
                if so_far.contains_key(dom_name(last.name@)) {
                    let j = choose|j: int| 0 <= j < front.len() && dom_name(#[trigger] front[j].name@) == dom_name(
                        last.name@,
                    );
                    assert(front[j] == more[j]);
                }
            }
        }
        assert forall|name: QNameView| #[trigger] all.contains_key(name) implies attributes.contains_key(name)
            || exists|i: int| 0 <= i < more.len() && dom_name(#[trigger] more[i].name@) == name by {
            if so_far.contains_key(name) {
                if !attributes.contains_key(name) {
                    let j = choose|j: int| 0 <= j < front.len() && dom_name(#[trigger] front[j].name@) == name;
                    assert(front[j] == more[j]);
                }
            } else {
                assert(dom_name(more[more.len() - 1].name@) == name);
            }
        }
    }
}

impl<'d> Dom<'d> {
    /// A state with the same nodes and links as a consistent one is
    /// consistent.
    pub proof fn lemma_same_links_wf(self, other: Dom<'d>)
        requires
            self.wf(),
            other.nodes == self.nodes,
            other.parent == self.parent,
            other.children == self.children,
            other.attributes.dom() == self.attributes.dom(),
        ensures
            other.wf(),
    {
    }

    /// A node without a parent link stands in no child list.
    pub proof fn lemma_orphan_unlisted(self, c: ChildOfElement<'d>)
        requires
            self.wf(),
            self.parent[c] is None || !self.nodes.contains(c),
        ensures
            forall|q: ParentOfChild<'d>| self.is_parent(q) ==> !(#[trigger] self.children[q]).contains(c),
    {
    }

    /// Allocating a node that did not exist keeps the links consistent.
    pub proof fn lemma_allocated_wf(self, c: ChildOfElement<'d>, after: Dom<'d>)
        requires
            self.wf(),
            !self.nodes.contains(c),
            after.nodes == self.nodes.insert(c),
            after.parent == self.parent.insert(c, None),
            after.children == if c is Element {
                self.children.insert(ParentOfChild::Element(c->Element_0), Seq::empty())
            } else {
                self.children
            },
            after.attributes.dom() == if c is Element {
                self.attributes.dom().insert(c->Element_0)
            } else {
                self.attributes.dom()
            },
        ensures
            after.wf(),
    {
        assert forall|p: ParentOfChild<'d>, x: ChildOfElement<'d>|
            after.is_parent(p) && #[trigger] after.children[p].contains(x) implies after.nodes.contains(x)
            && after.parent[x] == Some(p) by {
            assert(self.is_parent(p));
            assert(self.children[p].contains(x));
        }
        assert forall|p: ParentOfChild<'d>| after.is_parent(p) implies (#[trigger] after.children[p]).no_duplicates() by {
            if self.is_parent(p) {
                assert(self.children[p].no_duplicates());
            }
        }
        assert forall|x: ChildOfElement<'d>| after.nodes.contains(x) implies ((#[trigger] after.parent[x]) matches Some(
            p,
        ) ==> after.is_parent(p)) by {
            if x != c {
                assert(self.parent[x] == after.parent[x]);
            }
        }
    }

    /// What striking a node from its parent's list does to every child
    /// list.
    pub proof fn lemma_unlisted(self, c: ChildOfElement<'d>)
        requires
            self.wf(),
            self.nodes.contains(c),
        ensures
            self.unlisted(c).nodes == self.nodes,
            self.unlisted(c).parent == self.parent,
            forall|q: ParentOfChild<'d>|
                self.is_parent(q) ==> #[trigger] self.unlisted(c).children[q] == without(self.children[q], c),
            forall|q: ParentOfChild<'d>|
                self.is_parent(q) && self.parent[c] != Some(q) ==> #[trigger] self.unlisted(c).children[q]
                    == self.children[q],
    {
        assert forall|q: ParentOfChild<'d>| self.is_parent(q) implies #[trigger] self.unlisted(c).children[q]
            == without(self.children[q], c) by {
            lemma_without(self.children[q], c);
        }
        assert forall|q: ParentOfChild<'d>| self.is_parent(q) && self.parent[c] != Some(q) implies #[trigger] self.unlisted(
            c,
        ).children[q] == self.children[q] by {
            lemma_without(self.children[q], c);
        }
    }

    /// Removing a node from its parent keeps the links consistent, and the
    /// node stands in no child list afterwards.
    pub proof fn lemma_detached(self, c: ChildOfElement<'d>)
        requires
            self.wf(),
            self.nodes.contains(c),
        ensures
            self.detached(c).wf(),
            self.detached(c).nodes == self.nodes,
            self.detached(c).parent[c] is None,
            forall|q: ParentOfChild<'d>|
                self.is_parent(q) ==> #[trigger] self.detached(c).children[q] == without(self.children[q], c),
            forall|q: ParentOfChild<'d>|
                self.is_parent(q) && self.parent[c] != Some(q) ==> #[trigger] self.detached(c).children[q]
                    == self.children[q],
            forall|q: ParentOfChild<'d>| self.is_parent(q) ==> !(#[trigger] self.detached(c).children[q]).contains(c),
            forall|x: ChildOfElement<'d>| x != c ==> #[trigger] self.detached(c).parent[x] == self.parent[x],
    {
        self.lemma_unlisted(c);
        let after = self.detached(c);
        assert forall|q: ParentOfChild<'d>| self.is_parent(q) implies !(#[trigger] after.children[q]).contains(c)
            && after.children[q].no_duplicates() && (forall|x: ChildOfElement<'d>|
            after.children[q].contains(x) ==> self.children[q].contains(x) && x != c) by {
            lemma_without(self.children[q], c);
        }
        assert forall|p: ParentOfChild<'d>, x: ChildOfElement<'d>|
            after.is_parent(p) && #[trigger] after.children[p].contains(x) implies after.nodes.contains(x)
            && after.parent[x] == Some(p) by {
            assert(self.children[p].contains(x));
        }
        assert forall|x: ChildOfElement<'d>| after.nodes.contains(x) implies ((#[trigger] after.parent[x]) matches Some(
            p,
        ) ==> after.is_parent(p)) by {
            if x != c {
                assert(self.parent[x] == after.parent[x]);
            }
        }
    }

    /// Appending a node under a parent keeps the links consistent; the node
    /// leaves every child list and comes last under that parent.
    pub proof fn lemma_appended(self, p: ParentOfChild<'d>, c: ChildOfElement<'d>)
        requires
            self.wf(),
            self.is_parent(p),
            self.nodes.contains(c),
            p is Root ==> !(c is Text),
            p is Root && c is Element ==> forall|x: ChildOfElement<'d>| #[trigger]
                self.children[ParentOfChild::Root].contains(x) ==> !(x is Element) || x == c,
        ensures
            self.appended(p, c).wf(),
            self.appended(p, c).nodes == self.nodes,
            self.appended(p, c).parent == self.parent.insert(c, Some(p)),
            self.appended(p, c).children[p] == without(self.children[p], c).push(c),
            forall|q: ParentOfChild<'d>|
                self.is_parent(q) && q != p ==> #[trigger] self.appended(p, c).children[q] == without(
                    self.children[q],
                    c,
                ),
            forall|q: ParentOfChild<'d>|
                self.is_parent(q) && q != p && self.parent[c] != Some(q) ==> #[trigger] self.appended(
                    p,
                    c,
                ).children[q] == self.children[q],
            self.parent[c] is None ==> self.appended(p, c).children == self.children.insert(
                p,
                self.children[p].push(c),
            ),
    {
        self.lemma_unlisted(c);
        let after = self.appended(p, c);
        if self.parent[c] is None {
            self.lemma_orphan_unlisted(c);
            lemma_without(self.children[p], c);
        }
        assert forall|q: ParentOfChild<'d>| self.is_parent(q) implies without(self.children[q], c).no_duplicates() && (
        forall|x: ChildOfElement<'d>| #[trigger]
            without(self.children[q], c).contains(x) <==> self.children[q].contains(x) && x != c) by {
            lemma_without(self.children[q], c);
        }
        let base = without(self.children[p], c);
        assert(after.children[p] == base.push(c));
        assert forall|x: ChildOfElement<'d>| #[trigger] base.push(c).contains(x) <==> (base.contains(x) || x == c) by {
            assert(base.push(c)[base.len() as int] == c);
            if base.push(c).contains(x) {
                let j = choose|j: int| 0 <= j < base.push(c).len() && base.push(c)[j] == x;
                if j < base.len() {
                    assert(base[j] == x);
                }
            }
            if base.contains(x) {
                let j = choose|j: int| 0 <= j < base.len() && base[j] == x;
                assert(base.push(c)[j] == x);
            }
        }
        assert(base.push(c).no_duplicates()) by {
            assert forall|i: int, j: int|
                0 <= i < base.push(c).len() && 0 <= j < base.push(c).len() && i != j implies base.push(c)[i]
                != base.push(c)[j] by {
                if i < base.len() && j < base.len() {
                } else if i < base.len() {
                    assert(base.contains(base[i]));
                } else {
                    assert(base.contains(base[j]));
                }
            }
        }
        assert forall|q: ParentOfChild<'d>, x: ChildOfElement<'d>|
            after.is_parent(q) && #[trigger] after.children[q].contains(x) implies after.nodes.contains(x)
            && after.parent[x] == Some(q) by {
            if q == p {
                if x != c {
                    assert(self.children[p].contains(x));
                }
            } else {
                assert(after.children[q] == without(self.children[q], c));
                assert(self.children[q].contains(x));
            }
        }
        assert forall|q: ParentOfChild<'d>| after.is_parent(q) implies (#[trigger] after.children[q]).no_duplicates() by {
            if q != p {
                assert(after.children[q] == without(self.children[q], c));
            }
        }
        assert forall|x: ChildOfElement<'d>| after.nodes.contains(x) implies ((#[trigger] after.parent[x]) matches Some(
            q,
        ) ==> after.is_parent(q)) by {
            if x != c {
                assert(self.parent[x] == after.parent[x]);
            }
        }
        assert forall|x: ChildOfElement<'d>| #[trigger]
            after.children[ParentOfChild::Root].contains(x) implies !(x is Text) by {
            if p is Root {
                if x != c {
                    assert(self.children[ParentOfChild::Root].contains(x));
                }
            } else {
                assert(after.children[ParentOfChild::Root] == without(self.children[ParentOfChild::Root], c));
                assert(self.children[ParentOfChild::Root].contains(x));
            }
        }
    }

    /// Appending a node under the root keeps the links consistent; an
    /// element drives the elements out of the root's child list, and the
    /// node comes last in it.
    pub proof fn lemma_appended_to_root(self, c: ChildOfElement<'d>)
        requires
            self.wf(),
            self.nodes.contains(c),
            !(c is Text),
        ensures
            self.appended_to_root(c).wf(),
            self.appended_to_root(c).nodes == self.nodes,
            self.appended_to_root(c).parent == self.parent.insert(c, Some(ParentOfChild::Root)),
            self.appended_to_root(c).children[ParentOfChild::Root] == without(
                if c is Element {
                    non_elements(self.children[ParentOfChild::Root])
                } else {
                    self.children[ParentOfChild::Root]
                },
                c,
            ).push(c),
    {
        let root = ParentOfChild::Root;
        if c is Element {
            let kept = non_elements(self.children[root]);
            let d = Dom { children: self.children.insert(root, kept), ..self };
            let pred = |x: ChildOfElement<'d>| !(x is Element);
            lemma_filter_members(self.children[root], pred);
            lemma_filter_no_duplicates(self.children[root], pred);
            assert forall|p: ParentOfChild<'d>, x: ChildOfElement<'d>|
                d.is_parent(p) && #[trigger] d.children[p].contains(x) implies d.nodes.contains(x) && d.parent[x]
                == Some(p) by {
                assert(self.children[p].contains(x));
            }
            assert forall|p: ParentOfChild<'d>| d.is_parent(p) implies (#[trigger] d.children[p]).no_duplicates() by {
                if p != root {
                    assert(self.children[p].no_duplicates());
                }
            }
            assert forall|x: ChildOfElement<'d>| #[trigger] d.children[root].contains(x) implies !(x is Text) by {
                assert(self.children[root].contains(x));
            }
            assert(d.wf());
            d.lemma_appended(root, c);
        } else {
            self.lemma_appended(root, c);
        }
    }

    /// Emptying a child list keeps the links consistent.
    pub proof fn lemma_cleared(self, p: ParentOfChild<'d>)
        requires
            self.wf(),
            self.is_parent(p),
        ensures
            self.cleared(p).wf(),
            self.cleared(p).nodes == self.nodes,
            forall|x: ChildOfElement<'d>| #[trigger]
                self.cleared(p).parent[x] == if self.children[p].contains(x) {
                    None
                } else {
                    self.parent[x]
                },
    {
        let after = self.cleared(p);
        lemma_relinked(self.parent, self.children[p], None);
        assert forall|q: ParentOfChild<'d>, x: ChildOfElement<'d>|
            after.is_parent(q) && #[trigger] after.children[q].contains(x) implies after.nodes.contains(x)
            && after.parent[x] == Some(q) by {
            assert(q != p);
            assert(self.children[q].contains(x));
        }
        assert forall|q: ParentOfChild<'d>| after.is_parent(q) implies (#[trigger] after.children[q]).no_duplicates() by {
            if q != p {
                assert(self.children[q].no_duplicates());
            }
        }
        assert forall|x: ChildOfElement<'d>| after.nodes.contains(x) implies ((#[trigger] after.parent[x]) matches Some(
            q,
        ) ==> after.is_parent(q)) by {
            if !self.children[p].contains(x) {
                assert(self.parent[x] == after.parent[x]);
            }
        }
        assert forall|x: ChildOfElement<'d>| #[trigger]
            after.children[ParentOfChild::Root].contains(x) implies !(x is Text) by {
            assert(self.children[ParentOfChild::Root].contains(x));
        }
    }

    /// Appending an item keeps the links consistent and drops no node.
    pub proof fn lemma_with_appended_wf(self, p: ParentOfChild<'d>, item: Item<'d>, after: Dom<'d>)
        requires
            self.wf(),
            self.is_parent(p),
            item matches Item::Node(c) ==> self.nodes.contains(c) && (p is Root ==> !(c is Text)),
            self.with_appended(p, item, after),
        ensures
            after.wf(),
            self.nodes.subset_of(after.nodes),
            item is Node ==> after.nodes == self.nodes,
    {
        match item {
            Item::Node(c) => {
                if p is Root {
                    self.lemma_appended_to_root(c);
                } else {
                    self.lemma_appended(p, c);
                }
            },
            Item::Text(s) => {
                let cs = self.children[p];
                if cs.len() > 0 && cs.last() is Text {
                    self.lemma_same_links_wf(after);
                } else {
                    let t = choose|t: Text<'d>|
                        !self.nodes.contains(ChildOfElement::Text(t)) && after == #[trigger] self.with_text(
                            t,
                            s,
                        ).appended(p, ChildOfElement::Text(t));
                    let made = self.with_text(t, s);
                    self.lemma_allocated_wf(ChildOfElement::Text(t), made);
                    made.lemma_appended(p, ChildOfElement::Text(t));
                }
            },
        }
    }

    /// The state reached while the children of `from` are moved to `to`:
    /// after the child list of `from` was emptied and its first `k` former
    /// children were appended under `to`.
    proof fn lemma_reparent_steps(self, from: ParentOfChild<'d>, to: ParentOfChild<'d>, k: int)
        requires
            self.wf(),
            self.is_parent(from),
            self.is_parent(to),
            to is Element,
            0 <= k <= self.children[from].len(),
        ensures
            ({
                let moved = self.children[from];
                let kept = if from == to {
                    Seq::empty()
                } else {
                    self.children[to]
                };
                let d = self.cleared(from).appended_all(to, moved.take(k));
                &&& d.wf()
                &&& d == Dom {
                    parent: relinked(relinked(self.parent, moved, None), moved.take(k), Some(to)),
                    children: self.children.insert(from, Seq::empty()).insert(to, kept + moved.take(k)),
                    ..self
                }
            }),
        decreases k,
    {
        let moved = self.children[from];
        let kept = if from == to {
            Seq::empty()
        } else {
            self.children[to]
        };
        let start = self.cleared(from);
        self.lemma_cleared(from);
        if k == 0 {
            assert(moved.take(0) =~= Seq::empty());
            assert(kept + moved.take(0) =~= kept);
            assert(start.children =~= self.children.insert(from, Seq::empty()).insert(to, kept));
        } else {
            self.lemma_reparent_steps(from, to, k - 1);
            let c = moved[k - 1];
            let before = start.appended_all(to, moved.take(k - 1));
            assert(moved.take(k).drop_last() =~= moved.take(k - 1));
            assert(moved.take(k).last() == c);
            let d = before.appended(to, c);
            assert(start.appended_all(to, moved.take(k)) == d);
            assert(moved.contains(c));
            lemma_relinked(self.parent, moved, None);
            lemma_relinked(relinked(self.parent, moved, None), moved.take(k - 1), Some(to));
            let done = moved.take(k - 1);
            assert(!done.contains(c)) by {
                if done.contains(c) {
                    let j = choose|j: int| 0 <= j < done.len() && done[j] == c;
                    assert(moved[j] == moved[k - 1]);
                }
            }
            assert(before.parent[c] is None);
            before.lemma_appended(to, c);
            assert((kept + moved.take(k - 1)).push(c) =~= kept + moved.take(k));
            assert(d.children =~= self.children.insert(from, Seq::empty()).insert(to, kept + moved.take(k)));
        }
    }

    /// Emptying the child list of `from` and appending its former children
    /// under `to`, in order, moves them to the end of the child list of `to`
    /// and keeps the links consistent.
    pub proof fn lemma_reparented(self, from: ParentOfChild<'d>, to: ParentOfChild<'d>)
        requires
            self.wf(),
            self.is_parent(from),
            self.is_parent(to),
            to is Element,
        ensures
            self.cleared(from).appended_all(to, self.children[from]) == self.reparented(from, to),
            self.reparented(from, to).wf(),
            self.reparented(from, to).nodes == self.nodes,
            forall|x: ChildOfElement<'d>| #[trigger]
                self.reparented(from, to).parent[x] == if self.children[from].contains(x) {
                    Some(to)
                } else {
                    self.parent[x]
                },
    {
        let moved = self.children[from];
        self.lemma_reparent_steps(from, to, moved.len() as int);
        assert(moved.take(moved.len() as int) =~= moved);
        lemma_relinked(self.parent, moved, None);
        lemma_relinked(relinked(self.parent, moved, None), moved, Some(to));
        lemma_relinked(self.parent, moved, Some(to));
        assert(relinked(relinked(self.parent, moved, None), moved, Some(to)) =~= relinked(
            self.parent,
            moved,
            Some(to),
        ));
    }
}

} // verus!
