//! What the children of a parent amount to as content, and how appending
//! changes it.

use crate::lemmas::{
    lemma_filter_all, lemma_position, lemma_relinked, lemma_without, lemma_without_at, lemma_without_keeps_front,
    lemma_without_push,
};
use crate::model::{
    append_item, append_items, append_root_item, append_root_items, is_element_item, non_element_items,
    non_elements, position, relinked, without, ChildOfElement, Dom, Item, ParentOfChild,
};
use sxd_document::dom::Text;
use vstd::prelude::*;

verus! {

/// The characters of `fragments`, one after the other.
pub open spec fn concatenated(fragments: Seq<Seq<char>>) -> Seq<char>
    decreases fragments.len(),
{
    if fragments.len() == 0 {
        Seq::empty()
    } else {
        concatenated(fragments.drop_last()) + fragments.last()
    }
}

/// Each of `fragments` as a text item.
pub open spec fn text_items<'d>(fragments: Seq<Seq<char>>) -> Seq<Item<'d>> {
    fragments.map_values(|s: Seq<char>| Item::Text(s))
}

/// Whether the content list holds no node twice.
pub open spec fn distinct_nodes<'d>(items: Seq<Item<'d>>) -> bool {
    forall|i: int, j: int|
        0 <= i < items.len() && 0 <= j < items.len() && i != j && items[i] is Node ==> items[i] != items[j]
}

/// Whether no text item of the content list follows another directly.
pub open spec fn texts_apart<'d>(items: Seq<Item<'d>>) -> bool {
    forall|i: int| 0 < i < items.len() && #[trigger] items[i] is Text ==> !(items[i - 1] is Text)
}

/// Appending fragments of text one after the other leaves one text item at
/// the end, which holds the fragments in order: they are joined to the text
/// item that came last, or stand in a new one where the last item was no
/// text.
pub proof fn lemma_text_run<'d>(items: Seq<Item<'d>>, fragments: Seq<Seq<char>>)
    requires
        fragments.len() > 0,
    ensures
        append_items(items, text_items(fragments)) == if items.len() > 0 && items.last() is Text {
            items.drop_last().push(Item::Text(items.last()->Text_0 + concatenated(fragments)))
        } else {
            items.push(Item::Text(concatenated(fragments)))
        },
    decreases fragments.len(),
{
    let more = text_items::<'d>(fragments);
    let front = fragments.drop_last();
    assert(more.drop_last() =~= text_items::<'d>(front));
    assert(more.last() == Item::<'d>::Text(fragments.last()));
    if front.len() == 0 {
        assert(concatenated(front) =~= Seq::<char>::empty());
        assert(concatenated(fragments) =~= fragments.last());
        assert(append_items(items, more.drop_last()) == items);
    } else {
        lemma_text_run(items, front);
        let so_far = append_items(items, more.drop_last());
        if items.len() > 0 && items.last() is Text {
            assert(items.last()->Text_0 + concatenated(front) + fragments.last() =~= items.last()->Text_0
                + concatenated(fragments));
            assert(so_far.drop_last() =~= items.drop_last());
        } else {
            assert(so_far.drop_last() =~= items);
        }
    }
}

/// Appending, to a content list `before`, first `item` and then each item of
/// a content list `after`, gives `before`, `item` and `after` in a row where
/// nothing is joined or moved: that is, where no node occurs twice in the
/// three together, no text of `after` follows text directly, and text that
/// is inserted neither follows nor precedes text.
pub proof fn lemma_insert_between<'d>(before: Seq<Item<'d>>, item: Item<'d>, after: Seq<Item<'d>>)
    requires
        distinct_nodes(before.push(item) + after),
        texts_apart(after),
        item is Text ==> !(before.len() > 0 && before.last() is Text),
        after.len() > 0 && after[0] is Text ==> !(item is Text),
    ensures
        append_items(append_item(before, item), after) == before.push(item) + after,
    decreases after.len(),
{
    let all = before.push(item) + after;
    if after.len() == 0 {
        assert(all =~= before.push(item));
        if item is Node {
            assert(!before.contains(item)) by {
                if before.contains(item) {
                    let i = choose|i: int| 0 <= i < before.len() && before[i] == item;
                    assert(all[i] == item);
                    assert(all[before.len() as int] == item);
                }
            }
            lemma_without(before, item);
        }
    } else {
        let front = after.drop_last();
        let last = after.last();
        let shorter = before.push(item) + front;
        assert(shorter =~= all.drop_last());
        assert forall|i: int, j: int|
            0 <= i < shorter.len() && 0 <= j < shorter.len() && i != j && shorter[i] is Node implies shorter[i]
            != shorter[j] by {
            assert(all[i] == shorter[i] && all[j] == shorter[j]);
        }
        assert forall|i: int| 0 < i < front.len() && #[trigger] front[i] is Text implies !(front[i - 1] is Text) by {
            assert(after[i] == front[i] && after[i - 1] == front[i - 1]);
        }
        if front.len() > 0 {
            assert(front[0] == after[0]);
        }
        lemma_insert_between(before, item, front);
        assert(all =~= shorter.push(last));
        assert(all[all.len() - 1] == last);
        if last is Node {
            assert(!shorter.contains(last)) by {
                if shorter.contains(last) {
                    let i = choose|i: int| 0 <= i < shorter.len() && shorter[i] == last;
                    assert(all[i] == last);
                }
            }
            lemma_without(shorter, last);
        } else {
            assert(shorter.last() == all[all.len() - 2]);
            if front.len() > 0 {
                assert(shorter.last() == after[after.len() - 2]);
                assert(after[after.len() - 1] is Text);
            } else {
                assert(shorter.last() == item);
            }
        }
    }
}

/// Whether inserting `item` at index `k` of the content list `items` of an
/// element joins and moves nothing: no node occurs twice once `item` is
/// there, no text from index `k` on follows text directly, and text that is
/// inserted neither follows nor precedes text.
pub open spec fn inserts_plainly<'d>(items: Seq<Item<'d>>, k: int, item: Item<'d>) -> bool {
    &&& 0 <= k <= items.len()
    &&& distinct_nodes(items.take(k).push(item) + items.skip(k))
    &&& texts_apart(items.skip(k))
    &&& item is Text ==> !(k > 0 && items[k - 1] is Text) && !(k < items.len() && items[k] is Text)
}

/// Whether inserting the node `item` at index `k` of the content list
/// `items` of the root moves nothing and drives nothing out: no node occurs
/// twice and one element at most stands there once `item` is there.
pub open spec fn inserts_plainly_under_root<'d>(items: Seq<Item<'d>>, k: int, item: Item<'d>) -> bool {
    &&& 0 <= k <= items.len()
    &&& item is Node
    &&& forall|i: int| 0 <= i < items.len() ==> (#[trigger] items[i]) is Node
    &&& distinct_nodes(items.take(k).push(item) + items.skip(k))
    &&& one_element(items.take(k).push(item) + items.skip(k))
}

/// Whether the content list holds one element at most.
pub open spec fn one_element<'d>(items: Seq<Item<'d>>) -> bool {
    forall|i: int, j: int|
        0 <= i < items.len() && 0 <= j < items.len() && i != j ==> !(is_element_item(items[i]) && is_element_item(
            items[j],
        ))
}

/// Appending, to a content list `before` of the root, first the node `item`
/// and then each node of a content list `after`, gives `before`, `item` and
/// `after` in a row where nothing is moved or driven out: that is, where no
/// node occurs twice in the three together and they hold one element at
/// most.
pub proof fn lemma_insert_between_under_root<'d>(before: Seq<Item<'d>>, item: Item<'d>, after: Seq<Item<'d>>)
    requires
        distinct_nodes(before.push(item) + after),
        one_element(before.push(item) + after),
        forall|i: int| 0 <= i < (before.push(item) + after).len() ==> (#[trigger] (before.push(item) + after)[i]) is Node,
    ensures
        append_root_items(append_root_item(before, item), after) == before.push(item) + after,
    decreases after.len(),
{
    let all = before.push(item) + after;
    let pred = |x: Item<'d>| !is_element_item(x);
    if after.len() == 0 {
        assert(all =~= before.push(item));
        assert(all[before.len() as int] == item);
        assert(!before.contains(item)) by {
            if before.contains(item) {
                let i = choose|i: int| 0 <= i < before.len() && before[i] == item;
                assert(all[i] == item);
            }
        }
        lemma_without(before, item);
        if is_element_item(item) {
            assert forall|i: int| 0 <= i < before.len() implies pred(#[trigger] before[i]) by {
                assert(all[i] == before[i]);
            }
            lemma_filter_all(before, pred);
        }
    } else {
        let front = after.drop_last();
        let last = after.last();
        let shorter = before.push(item) + front;
        assert(shorter =~= all.drop_last());
        assert forall|i: int, j: int|
            0 <= i < shorter.len() && 0 <= j < shorter.len() && i != j && shorter[i] is Node implies shorter[i]
            != shorter[j] by {
            assert(all[i] == shorter[i] && all[j] == shorter[j]);
        }
        assert forall|i: int, j: int| 0 <= i < shorter.len() && 0 <= j < shorter.len() && i != j implies !(
        is_element_item(shorter[i]) && is_element_item(shorter[j])) by {
            assert(all[i] == shorter[i] && all[j] == shorter[j]);
        }
        assert forall|i: int| 0 <= i < shorter.len() implies (#[trigger] shorter[i]) is Node by {
            assert(all[i] == shorter[i]);
        }
        lemma_insert_between_under_root(before, item, front);
        assert(all =~= shorter.push(last));
        assert(all[all.len() - 1] == last);
        assert(!shorter.contains(last)) by {
            if shorter.contains(last) {
                let i = choose|i: int| 0 <= i < shorter.len() && shorter[i] == last;
                assert(all[i] == last);
            }
        }
        lemma_without(shorter, last);
        if is_element_item(last) {
            assert forall|i: int| 0 <= i < shorter.len() implies pred(#[trigger] shorter[i]) by {
                assert(all[i] == shorter[i]);
            }
            lemma_filter_all(shorter, pred);
        }
    }
}

impl<'d> Dom<'d> {
    /// The content under a parent names every child that is no text: where
    /// the content holds a node, the child list holds that node.
    pub proof fn lemma_content_names_nodes(self, p: ParentOfChild<'d>, i: int)
        requires
            0 <= i < self.children[p].len(),
        ensures
            self.content(p).len() == self.children[p].len(),
            self.content(p)[i] matches Item::Node(c) ==> self.children[p][i] == c,
            self.content(p)[i] matches Item::Text(s) ==> self.children[p][i] matches ChildOfElement::Text(t)
                && self.text[t] == s,
    {
    }

    /// Appending fragments of text under an element one after the other
    /// leaves one text child at the end, which holds the fragments in order:
    /// they are joined to the text child that came last, or stand in a new
    /// one where the last child was no text or there was none.
    pub proof fn lemma_text_appends(states: Seq<Dom<'d>>, p: ParentOfChild<'d>, fragments: Seq<Seq<char>>)
        requires
            fragments.len() > 0,
            states.len() == fragments.len() + 1,
            states[0].wf(),
            states[0].is_parent(p),
            p is Element,
            forall|i: int|
                0 <= i < fragments.len() ==> (#[trigger] states[i]).with_appended(
                    p,
                    Item::Text(fragments[i]),
                    states[i + 1],
                ),
        ensures
            states.last().wf(),
            ({
                let before = states[0].content(p);
                states.last().content(p) == if before.len() > 0 && before.last() is Text {
                    before.drop_last().push(Item::Text(before.last()->Text_0 + concatenated(fragments)))
                } else {
                    before.push(Item::Text(concatenated(fragments)))
                }
            }),
    {
        Self::lemma_appends(states, p, text_items(fragments));
        lemma_text_run(states[0].content(p), fragments);
    }

    /// Appending text items under an element one after the other appends
    /// them to the content under it.
    proof fn lemma_appends(states: Seq<Dom<'d>>, p: ParentOfChild<'d>, items: Seq<Item<'d>>)
        requires
            states.len() == items.len() + 1,
            states[0].wf(),
            states[0].is_parent(p),
            p is Element,
            forall|i: int| 0 <= i < items.len() ==> (#[trigger] items[i]) is Text,
            forall|i: int| 0 <= i < items.len() ==> (#[trigger] states[i]).with_appended(p, items[i], states[i + 1]),
        ensures
            states.last().wf(),
            states[0].nodes.subset_of(states.last().nodes),
            states.last().content(p) == append_items(states[0].content(p), items),
        decreases items.len(),
    {
        if items.len() > 0 {
            let n = items.len() as int;
            let front = states.drop_last();
            assert forall|i: int| 0 <= i < items.drop_last().len() implies (#[trigger] front[i]).with_appended(
                p,
                items.drop_last()[i],
                front[i + 1],
            ) by {
                assert(states[i].with_appended(p, items[i], states[i + 1]));
            }
            assert forall|i: int| 0 <= i < items.drop_last().len() implies (#[trigger] items.drop_last()[i]) is Text by {
                assert(items[i] is Text);
            }
            Self::lemma_appends(front, p, items.drop_last());
            let mid = states[n - 1];
            assert(front.last() == mid);
            assert(front[0] == states[0]);
            assert(mid.with_appended(p, items[n - 1], states[n]));
            mid.lemma_with_appended_wf(p, items[n - 1], states[n]);
            mid.lemma_with_appended_content(p, items[n - 1], states[n]);
        }
    }

    /// The content of a child list from which a node was struck.
    pub proof fn lemma_items_without(self, cs: Seq<ChildOfElement<'d>>, c: ChildOfElement<'d>)
        requires
            !(c is Text),
        ensures
            self.items_of(without(cs, c)) == without(self.items_of(cs), Item::Node(c)),
        decreases cs.len(),
    {
        if cs.len() == 0 {
            lemma_without(cs, c);
            lemma_without(self.items_of(cs), Item::Node(c));
            assert(self.items_of(without(cs, c)) =~= without(self.items_of(cs), Item::Node(c)));
        } else {
            let front = cs.drop_last();
            let last = cs.last();
            self.lemma_items_without(front, c);
            assert(cs =~= front.push(last));
            assert(self.items_of(cs) =~= self.items_of(front).push(self.item_of(last)));
            lemma_without_push(front, last, c);
            lemma_without_push(self.items_of(front), self.item_of(last), Item::Node(c));
            if last != c {
                assert(self.items_of(without(front, c).push(last)) =~= self.items_of(without(front, c)).push(
                    self.item_of(last),
                ));
            }
        }
    }

    /// What appending an item under an element does to the content under
    /// that element, and what it leaves alone: the characters of every text
    /// node that does not stand under the element, and the parent link of
    /// every node but the one that is appended.
    pub proof fn lemma_with_appended_content(self, p: ParentOfChild<'d>, item: Item<'d>, after: Dom<'d>)
        requires
            self.wf(),
            self.is_parent(p),
            p is Element,
            item matches Item::Node(c) ==> self.nodes.contains(c) && !(c is Text),
            self.with_appended(p, item, after),
        ensures
            after.content(p) == append_item(self.content(p), item),
            forall|t: Text<'d>|
                self.nodes.contains(ChildOfElement::Text(t)) && self.parent[ChildOfElement::Text(t)] != Some(p)
                    ==> #[trigger] after.text[t] == self.text[t],
            forall|x: ChildOfElement<'d>|
                self.nodes.contains(x) && Item::Node(x) != item ==> #[trigger] after.parent[x] == self.parent[x],
    {
        let cs = self.children[p];
        match item {
            Item::Node(c) => {
                self.lemma_appended(p, c);
                self.lemma_items_without(cs, c);
                assert(after.items_of(without(cs, c).push(c)) =~= self.items_of(without(cs, c)).push(item));
            },
            Item::Text(s) => {
                if cs.len() > 0 && cs.last() is Text {
                    let t = cs.last()->Text_0;
                    assert(cs.contains(cs.last())) by {
                        assert(cs[cs.len() - 1] == cs.last());
                    }
                    assert forall|i: int| 0 <= i < cs.len() - 1 implies after.item_of(cs[i]) == self.item_of(
                        cs[i],
                    ) by {
                        assert(cs[i] != cs[cs.len() - 1]);
                    }
                    assert(after.content(p) =~= append_item(self.content(p), item));
                } else {
                    let t = choose|t: Text<'d>|
                        !self.nodes.contains(ChildOfElement::Text(t)) && after == #[trigger] self.with_text(
                            t,
                            s,
                        ).appended(p, ChildOfElement::Text(t));
                    let made = self.with_text(t, s);
                    self.lemma_allocated_wf(ChildOfElement::Text(t), made);
                    made.lemma_appended(p, ChildOfElement::Text(t));
                    assert forall|i: int| 0 <= i < cs.len() implies after.item_of(cs[i]) == self.item_of(cs[i]) by {
                        assert(cs.contains(cs[i]));
                    }
                    assert(after.content(p) =~= append_item(self.content(p), item));
                }
            },
        }
    }
    /// The state reached while the children of `p` from index `k` on are
    /// removed from it, front to back: after the first `j` of them.
    proof fn lemma_detached_steps(self, p: ParentOfChild<'d>, k: int, j: int)
        requires
            self.wf(),
            self.is_parent(p),
            0 <= k <= self.children[p].len(),
            0 <= j <= self.children[p].len() - k,
        ensures
            ({
                let cs = self.children[p];
                let moved = cs.skip(k);
                let d = self.detached_all(moved.take(j));
                &&& d.wf()
                &&& d == Dom {
                    parent: relinked(self.parent, moved.take(j), None),
                    children: self.children.insert(p, cs.take(k) + moved.skip(j)),
                    ..self
                }
            }),
        decreases j,
    {
        let cs = self.children[p];
        let moved = cs.skip(k);
        if j == 0 {
            assert(moved.take(0) =~= Seq::empty());
            assert(cs.take(k) + moved.skip(0) =~= cs);
            assert(self.children.insert(p, cs) =~= self.children);
        } else {
            self.lemma_detached_steps(p, k, j - 1);
            let c = moved[j - 1];
            let done = moved.take(j - 1);
            let before = self.detached_all(done);
            assert(moved.take(j).drop_last() =~= done);
            assert(moved.take(j).last() == c);
            assert(self.detached_all(moved.take(j)) == before.detached(c));
            assert(cs[k + j - 1] == c);
            assert(cs.contains(c));
            assert(!done.contains(c)) by {
                if done.contains(c) {
                    let i = choose|i: int| 0 <= i < done.len() && done[i] == c;
                    assert(cs[k + i] == cs[k + j - 1]);
                }
            }
            lemma_relinked(self.parent, done, None);
            assert(before.parent[c] == Some(p));
            let list = cs.take(k) + moved.skip(j - 1);
            assert(before.children[p] == list);
            assert(list[k] == c);
            lemma_without_at(list, k);
            assert(list.take(k) + list.skip(k + 1) =~= cs.take(k) + moved.skip(j));
            let d = before.detached(c);
            before.lemma_detached(c);
            assert(d.children =~= self.children.insert(p, cs.take(k) + moved.skip(j)));
        }
    }

    /// Removing a child and the siblings after it from their parent leaves
    /// the children before it under that parent, takes the parent link from
    /// each removed node, and changes nothing else.
    pub proof fn lemma_detached_from(self, c: ChildOfElement<'d>)
        requires
            self.wf(),
            self.nodes.contains(c),
            self.parent[c] is Some,
            self.linked(c),
        ensures
            ({
                let p = self.parent[c]->Some_0;
                let cs = self.children[p];
                let k = position(cs, c);
                let moved = seq![c] + self.following(c);
                let d = self.detached_all(moved);
                &&& 0 <= k < cs.len()
                &&& moved == cs.skip(k)
                &&& d.wf()
                &&& d == Dom {
                    parent: relinked(self.parent, moved, None),
                    children: self.children.insert(p, cs.take(k)),
                    ..self
                }
                &&& d.content(p) == self.content(p).take(k)
                &&& d.items_of(moved) == self.content(p).skip(k)
            }),
    {
        let p = self.parent[c]->Some_0;
        let cs = self.children[p];
        let k = position(cs, c);
        let moved = seq![c] + self.following(c);
        lemma_position(cs, c);
        assert(moved =~= cs.skip(k));
        self.lemma_detached_steps(p, k, cs.len() - k);
        assert(moved.take(cs.len() - k) =~= moved);
        assert(cs.take(k) + moved.skip(cs.len() - k) =~= cs.take(k));
        let d = self.detached_all(moved);
        assert(d.content(p) =~= self.content(p).take(k));
        assert(d.items_of(moved) =~= self.content(p).skip(k));
    }

    /// What appending the content of each of `cs` under an element does to
    /// the content under that element, where the text nodes among `cs` stand
    /// under no parent. The characters and the missing parent link of every
    /// text node without a parent are left alone.
    pub proof fn lemma_with_reappended_content(
        self,
        p: ParentOfChild<'d>,
        cs: Seq<ChildOfElement<'d>>,
        after: Dom<'d>,
    )
        requires
            self.wf(),
            self.is_parent(p),
            p is Element,
            forall|i: int| 0 <= i < cs.len() ==> self.nodes.contains(#[trigger] cs[i]),
            forall|i: int| 0 <= i < cs.len() && (#[trigger] cs[i]) is Text ==> self.parent[cs[i]] is None,
            self.with_reappended(p, cs, after),
        ensures
            after.wf(),
            self.nodes.subset_of(after.nodes),
            after.content(p) == append_items(self.content(p), self.items_of(cs)),
            forall|t: Text<'d>|
                self.nodes.contains(ChildOfElement::Text(t)) && self.parent[ChildOfElement::Text(t)] is None
                    ==> #[trigger] after.text[t] == self.text[t],
            forall|t: Text<'d>|
                self.nodes.contains(ChildOfElement::Text(t)) && self.parent[ChildOfElement::Text(t)] is None
                    ==> #[trigger] after.parent[ChildOfElement::Text(t)] is None,
        decreases cs.len(),
    {
        if cs.len() == 0 {
            assert(self.items_of(cs) =~= Seq::<Item<'d>>::empty());
        } else {
            let front = cs.drop_last();
            let last = cs.last();
            let mid = choose|mid: Dom<'d>|
                self.with_reappended(p, front, mid) && #[trigger] mid.with_appended(p, mid.item_of(last), after);
            assert forall|i: int| 0 <= i < front.len() implies self.nodes.contains(#[trigger] front[i]) by {
                assert(front[i] == cs[i]);
            }
            assert forall|i: int| 0 <= i < front.len() && (#[trigger] front[i]) is Text implies self.parent[front[i]]
                is None by {
                assert(front[i] == cs[i]);
            }
            self.lemma_with_reappended_content(p, front, mid);
            assert(cs[cs.len() - 1] == last);
            assert(self.nodes.contains(last));
            assert(mid.nodes.contains(last));
            let item = mid.item_of(last);
            if last is Text {
                assert(mid.text[last->Text_0] == self.text[last->Text_0]);
            }
            assert(item == self.item_of(last));
            mid.lemma_with_appended_wf(p, item, after);
            mid.lemma_with_appended_content(p, item, after);
            assert(self.items_of(cs).drop_last() =~= self.items_of(front));
            assert(self.items_of(cs).last() == self.item_of(last));
            assert forall|t: Text<'d>|
                self.nodes.contains(ChildOfElement::Text(t)) && self.parent[ChildOfElement::Text(t)] is None implies
                #[trigger] after.text[t] == self.text[t] by {
                assert(mid.parent[ChildOfElement::Text(t)] is None);
                assert(mid.text[t] == self.text[t]);
                assert(mid.nodes.contains(ChildOfElement::Text(t)));
            }
            assert forall|t: Text<'d>|
                self.nodes.contains(ChildOfElement::Text(t)) && self.parent[ChildOfElement::Text(t)] is None implies
                #[trigger] after.parent[ChildOfElement::Text(t)] is None by {
                assert(mid.parent[ChildOfElement::Text(t)] is None);
                assert(mid.nodes.contains(ChildOfElement::Text(t)));
                assert(Item::Node(ChildOfElement::Text(t)) != item);
            }
        }
    }

    /// What inserting an item before a child of an element does to the
    /// content under that element: the content before the child stays, the
    /// item is appended to it, and then each item from the child on is
    /// appended, in order.
    pub proof fn lemma_with_inserted_before_content(self, c: ChildOfElement<'d>, item: Item<'d>, after: Dom<'d>)
        requires
            self.wf(),
            self.nodes.contains(c),
            self.parent[c] is Some,
            self.parent[c]->Some_0 is Element,
            self.linked(c),
            item matches Item::Node(x) ==> self.nodes.contains(x) && !(x is Text),
            self.with_inserted_before(c, item, after),
        ensures
            after.wf(),
            self.nodes.subset_of(after.nodes),
            ({
                let p = self.parent[c]->Some_0;
                let k = position(self.children[p], c);
                after.content(p) == append_items(
                    append_item(self.content(p).take(k), item),
                    self.content(p).skip(k),
                )
            }),
    {
        let p = self.parent[c]->Some_0;
        let cs = self.children[p];
        let k = position(cs, c);
        let moved = seq![c] + self.following(c);
        let d = self.detached_all(moved);
        self.lemma_detached_from(c);
        lemma_relinked(self.parent, moved, None);
        let mid = choose|mid: Dom<'d>| #[trigger]
            d.with_appended(p, item, mid) && mid.with_reappended(p, moved, after);
        d.lemma_with_appended_wf(p, item, mid);
        d.lemma_with_appended_content(p, item, mid);
        assert forall|i: int| 0 <= i < moved.len() implies self.nodes.contains(#[trigger] moved[i]) by {
            assert(cs.contains(cs[k + i]));
        }
        assert forall|i: int| 0 <= i < moved.len() && (#[trigger] moved[i]) is Text implies mid.parent[moved[i]]
            is None by {
            assert(moved.contains(moved[i]));
            assert(d.parent[moved[i]] is None);
            assert(Item::Node(moved[i]) != item);
        }
        assert(mid.items_of(moved) =~= d.items_of(moved)) by {
            assert forall|i: int| 0 <= i < moved.len() implies mid.item_of(moved[i]) == d.item_of(moved[i]) by {
                assert(moved.contains(moved[i]));
                if moved[i] is Text {
                    assert(d.parent[moved[i]] is None);
                    assert(mid.text[moved[i]->Text_0] == d.text[moved[i]->Text_0]);
                }
            }
        }
        mid.lemma_with_reappended_content(p, moved, after);
    }
    /// The content of a child list from which the elements were struck.
    pub proof fn lemma_items_non_elements(self, cs: Seq<ChildOfElement<'d>>)
        ensures
            self.items_of(non_elements(cs)) == non_element_items(self.items_of(cs)),
        decreases cs.len(),
    {
        let kept = |c: ChildOfElement<'d>| !(c is Element);
        let kept_item = |item: Item<'d>| !is_element_item(item);
        if cs.len() == 0 {
            lemma_filter_all(cs, kept);
            lemma_filter_all(self.items_of(cs), kept_item);
            assert(self.items_of(non_elements(cs)) =~= non_element_items(self.items_of(cs)));
        } else {
            let front = cs.drop_last();
            let last = cs.last();
            self.lemma_items_non_elements(front);
            assert(cs =~= front.push(last));
            assert(self.items_of(cs) =~= self.items_of(front).push(self.item_of(last)));
            front.lemma_filter_push(last, kept);
            self.items_of(front).lemma_filter_push(self.item_of(last), kept_item);
            if !(last is Element) {
                assert(self.items_of(non_elements(front).push(last)) =~= self.items_of(non_elements(front)).push(
                    self.item_of(last),
                ));
            }
        }
    }

    /// What appending a node under the root does to the content under the
    /// root; the characters of every text node and the parent link of every
    /// other node are left alone.
    pub proof fn lemma_with_appended_content_under_root(self, c: ChildOfElement<'d>, after: Dom<'d>)
        requires
            self.wf(),
            self.nodes.contains(c),
            !(c is Text),
            self.with_appended(ParentOfChild::Root, Item::Node(c), after),
        ensures
            after.wf(),
            after.nodes == self.nodes,
            after.text == self.text,
            after.content(ParentOfChild::Root) == append_root_item(self.content(ParentOfChild::Root), Item::Node(c)),
            forall|x: ChildOfElement<'d>| x != c ==> #[trigger] after.parent[x] == self.parent[x],
    {
        let root = ParentOfChild::Root;
        let cs = self.children[root];
        let base = if c is Element {
            non_elements(cs)
        } else {
            cs
        };
        self.lemma_appended_to_root(c);
        self.lemma_items_non_elements(cs);
        self.lemma_items_without(base, c);
        assert(after.items_of(without(base, c).push(c)) =~= self.items_of(without(base, c)).push(Item::Node(c)));
    }

    /// What appending each of `cs`, none of them text, under the root does
    /// to the content under the root.
    pub proof fn lemma_with_reappended_content_under_root(self, cs: Seq<ChildOfElement<'d>>, after: Dom<'d>)
        requires
            self.wf(),
            forall|i: int| 0 <= i < cs.len() ==> self.nodes.contains(#[trigger] cs[i]) && !(cs[i] is Text),
            self.with_reappended(ParentOfChild::Root, cs, after),
        ensures
            after.wf(),
            after.nodes == self.nodes,
            after.text == self.text,
            after.content(ParentOfChild::Root) == append_root_items(
                self.content(ParentOfChild::Root),
                self.items_of(cs),
            ),
        decreases cs.len(),
    {
        let root = ParentOfChild::Root;
        if cs.len() == 0 {
            assert(self.items_of(cs) =~= Seq::<Item<'d>>::empty());
        } else {
            let front = cs.drop_last();
            let last = cs.last();
            let mid = choose|mid: Dom<'d>|
                self.with_reappended(root, front, mid) && #[trigger] mid.with_appended(root, mid.item_of(last), after);
            assert forall|i: int| 0 <= i < front.len() implies self.nodes.contains(#[trigger] front[i]) && !(front[i]
                is Text) by {
                assert(front[i] == cs[i]);
            }
            self.lemma_with_reappended_content_under_root(front, mid);
            assert(cs[cs.len() - 1] == last);
            mid.lemma_with_appended_content_under_root(last, after);
            assert(self.items_of(cs).drop_last() =~= self.items_of(front));
            assert(self.items_of(cs).last() == Item::Node(last));
        }
    }

    /// What inserting a node before a child of the root does to the content
    /// under the root: the content before the child stays, the node is
    /// appended to it, and then each node from the child on is appended, in
    /// order.
    pub proof fn lemma_with_inserted_before_content_under_root(
        self,
        c: ChildOfElement<'d>,
        x: ChildOfElement<'d>,
        after: Dom<'d>,
    )
        requires
            self.wf(),
            self.nodes.contains(c),
            self.parent[c] == Some(ParentOfChild::Root),
            self.linked(c),
            self.nodes.contains(x),
            !(x is Text),
            self.with_inserted_before(c, Item::Node(x), after),
        ensures
            after.wf(),
            after.nodes == self.nodes,
            ({
                let before = self.content(ParentOfChild::Root);
                let k = position(self.children[ParentOfChild::Root], c);
                after.content(ParentOfChild::Root) == append_root_items(
                    append_root_item(before.take(k), Item::Node(x)),
                    before.skip(k),
                )
            }),
    {
        let root = ParentOfChild::Root;
        let cs = self.children[root];
        let k = position(cs, c);
        let moved = seq![c] + self.following(c);
        let d = self.detached_all(moved);
        self.lemma_detached_from(c);
        let mid = choose|mid: Dom<'d>| #[trigger]
            d.with_appended(root, Item::Node(x), mid) && mid.with_reappended(root, moved, after);
        d.lemma_with_appended_content_under_root(x, mid);
        assert forall|i: int| 0 <= i < moved.len() implies mid.nodes.contains(#[trigger] moved[i]) && !(moved[i]
            is Text) by {
            assert(cs.contains(cs[k + i]));
        }
        assert(mid.items_of(moved) =~= d.items_of(moved));
        mid.lemma_with_reappended_content_under_root(moved, after);
    }
    /// Under a consistent state the content under a parent holds no node
    /// twice; under the root it holds nodes only, and one element at most.
    pub proof fn lemma_content_of_consistent(self, p: ParentOfChild<'d>)
        requires
            self.wf(),
            self.is_parent(p),
        ensures
            distinct_nodes(self.content(p)),
            p is Root ==> one_element(self.content(p)),
            p is Root ==> forall|i: int| 0 <= i < self.content(p).len() ==> (#[trigger] self.content(p)[i]) is Node,
    {
        let cs = self.children[p];
        let items = self.content(p);
        assert forall|i: int, j: int|
            0 <= i < items.len() && 0 <= j < items.len() && i != j && items[i] is Node implies items[i]
            != items[j] by {
            assert(cs[i] != cs[j]);
        }
        if p is Root {
            assert forall|i: int| 0 <= i < items.len() implies (#[trigger] items[i]) is Node by {
                assert(cs.contains(cs[i]));
            }
            assert forall|i: int, j: int| 0 <= i < items.len() && 0 <= j < items.len() && i != j implies !(
            is_element_item(items[i]) && is_element_item(items[j])) by {
                assert(cs.contains(cs[i]) && cs.contains(cs[j]));
                assert(cs[i] != cs[j]);
            }
        }
    }

    /// Appending an item under an element keeps the first `k` children of
    /// the element, where the item is no node among them and no text that
    /// would be joined to the last of them.
    pub proof fn lemma_with_appended_keeps_front(self, p: ParentOfChild<'d>, item: Item<'d>, after: Dom<'d>, k: int)
        requires
            self.wf(),
            self.is_parent(p),
            p is Element,
            0 <= k <= self.children[p].len(),
            item matches Item::Node(c) ==> self.nodes.contains(c) && !self.children[p].take(k).contains(c),
            item is Text ==> self.children[p].len() > k || self.children[p].len() == 0 || !(
            self.children[p].last() is Text),
            self.with_appended(p, item, after),
        ensures
            self.keeps_front(p, k, after),
            after.children[p].len() > k,
    {
        let cs = self.children[p];
        assert forall|i: int| 0 <= i < k implies cs.contains(#[trigger] cs[i]) by {}
        match item {
            Item::Node(c) => {
                self.lemma_appended(p, c);
                lemma_without_keeps_front(cs, c, k);
                assert(without(cs, c).push(c).take(k) =~= without(cs, c).take(k));
                assert forall|i: int| 0 <= i < k implies cs[i] != c by {
                    assert(cs.take(k)[i] == cs[i]);
                }
            },
            Item::Text(s) => {
                if cs.len() > 0 && cs.last() is Text {
                    assert(cs[cs.len() - 1] == cs.last());
                } else {
                    let t = choose|t: Text<'d>|
                        !self.nodes.contains(ChildOfElement::Text(t)) && after == #[trigger] self.with_text(
                            t,
                            s,
                        ).appended(p, ChildOfElement::Text(t));
                    let made = self.with_text(t, s);
                    self.lemma_allocated_wf(ChildOfElement::Text(t), made);
                    made.lemma_appended(p, ChildOfElement::Text(t));
                    assert(cs.push(ChildOfElement::Text(t)).take(k) =~= cs.take(k));
                }
            },
        }
    }

    /// Appending the content of each of `cs` under an element that has more
    /// than `k` children keeps the first `k` children of the element, where
    /// none of `cs` stands among them.
    pub proof fn lemma_with_reappended_keeps_front(
        self,
        p: ParentOfChild<'d>,
        cs: Seq<ChildOfElement<'d>>,
        after: Dom<'d>,
        k: int,
    )
        requires
            self.wf(),
            self.is_parent(p),
            p is Element,
            0 <= k < self.children[p].len(),
            forall|i: int|
                0 <= i < cs.len() ==> self.nodes.contains(#[trigger] cs[i]) && !self.children[p].take(k).contains(
                    cs[i],
                ),
            self.with_reappended(p, cs, after),
        ensures
            after.wf(),
            self.nodes.subset_of(after.nodes),
            self.keeps_front(p, k, after),
            after.children[p].len() > k,
        decreases cs.len(),
    {
        let own = self.children[p];
        if cs.len() == 0 {
            assert forall|i: int| 0 <= i < k implies own.contains(#[trigger] own[i]) by {}
        } else {
            let front = cs.drop_last();
            let last = cs.last();
            let mid = choose|mid: Dom<'d>|
                self.with_reappended(p, front, mid) && #[trigger] mid.with_appended(p, mid.item_of(last), after);
            assert forall|i: int| 0 <= i < front.len() implies self.nodes.contains(#[trigger] front[i])
                && !own.take(k).contains(front[i]) by {
                assert(front[i] == cs[i]);
            }
            self.lemma_with_reappended_keeps_front(p, front, mid, k);
            assert(cs[cs.len() - 1] == last);
            let item = mid.item_of(last);
            mid.lemma_with_appended_wf(p, item, after);
            mid.lemma_with_appended_keeps_front(p, item, after, k);
            assert forall|i: int| 0 <= i < k implies mid.children[p][i] == own[i] by {
                assert(mid.children[p].take(k)[i] == own.take(k)[i]);
            }
            assert(after.children[p].take(k) =~= own.take(k));
        }
    }

    /// Inserting an item before a child of an element keeps the children
    /// before that child, where the item is no node among them and no text
    /// that would be joined to the last of them.
    pub proof fn lemma_with_inserted_before_keeps_front(self, c: ChildOfElement<'d>, item: Item<'d>, after: Dom<'d>)
        requires
            self.wf(),
            self.nodes.contains(c),
            self.parent[c] is Some,
            self.parent[c]->Some_0 is Element,
            self.linked(c),
            item matches Item::Node(x) ==> self.nodes.contains(x) && !self.children[self.parent[c]->Some_0].take(
                position(self.children[self.parent[c]->Some_0], c),
            ).contains(x),
            item is Text ==> position(self.children[self.parent[c]->Some_0], c) == 0 || !(
            self.children[self.parent[c]->Some_0][position(self.children[self.parent[c]->Some_0], c) - 1] is Text),
            self.with_inserted_before(c, item, after),
        ensures
            self.keeps_front(self.parent[c]->Some_0, position(self.children[self.parent[c]->Some_0], c), after),
    {
        let p = self.parent[c]->Some_0;
        let cs = self.children[p];
        let k = position(cs, c);
        let moved = seq![c] + self.following(c);
        let d = self.detached_all(moved);
        self.lemma_detached_from(c);
        lemma_relinked(self.parent, moved, None);
        let mid = choose|mid: Dom<'d>| #[trigger]
            d.with_appended(p, item, mid) && mid.with_reappended(p, moved, after);
        assert(cs.take(k).take(k) =~= cs.take(k));
        if k > 0 {
            assert(cs.take(k).last() == cs[k - 1]);
        }
        d.lemma_with_appended_wf(p, item, mid);
        d.lemma_with_appended_keeps_front(p, item, mid, k);
        assert(mid.children[p].take(k) == cs.take(k));
        assert forall|i: int| 0 <= i < moved.len() implies mid.nodes.contains(#[trigger] moved[i])
            && !mid.children[p].take(k).contains(moved[i]) by {
            assert(cs.contains(cs[k + i]));
            if cs.take(k).contains(moved[i]) {
                let j = choose|j: int| 0 <= j < cs.take(k).len() && cs.take(k)[j] == moved[i];
                assert(cs[j] == cs[k + i]);
            }
        }
        mid.lemma_with_reappended_keeps_front(p, moved, after, k);
        assert forall|i: int| 0 <= i < k implies cs.contains(#[trigger] cs[i]) && !moved.contains(cs[i])
            && mid.children[p][i] == cs[i] by {
            if moved.contains(cs[i]) {
                let j = choose|j: int| 0 <= j < moved.len() && moved[j] == cs[i];
                assert(cs[k + j] == cs[i]);
            }
            assert(mid.children[p].take(k)[i] == cs.take(k)[i]);
        }
        assert(after.children[p].take(k) =~= cs.take(k));
    }
}

} // verus!
