//! Laws of the tree of instances.
use crate::exchange::{FlowView, ReplyView, StepView};
use crate::laws::removal::{
    lemma_removing, lemma_run, removal_run, removal_tree, successful_removal_takes_what_is_below,
};
use crate::laws::update::{
    update_changes_one_instance, update_keeps_a_place, update_run, update_tree,
};
use crate::meta::SourceView;
use crate::snapshot::SnapshotView;
use crate::tree::{
    detached, inserted, is_below, is_way, lemma_way_down, removed, without, TreeView,
};
use crate::write::removal::{parent_of, removal_started, removing, resourced, RemovalView};
use crate::write::update::update_started;
use rbx_dom_weak::types::{Ref, Variant};
use vstd::prelude::*;

verus! {

/// Instances know of each other: each child that an instance lists is in the tree and has the
/// instance as its parent, each parent is in the tree and lists the instance, and no child is
/// listed twice.
pub open spec fn coherent(tree: TreeView) -> bool {
    &&& forall|id: Ref, child: Ref|
        tree.contains_key(id) && #[trigger] tree[id].children.contains(child)
            ==> tree.contains_key(child) && tree[child].parent == Some(id)
    &&& forall|id: Ref| #[trigger]
        tree.contains_key(id) ==> (tree[id].parent matches Some(parent) ==> tree.contains_key(
            parent,
        ) && tree[parent].children.contains(id))
    &&& forall|id: Ref| #[trigger] tree.contains_key(id) ==> tree[id].children.no_duplicates()
}

/// A new instance leaves the tree coherent.
pub proof fn insertion_keeps_coherence(tree: TreeView, snapshot: SnapshotView, parent: Ref)
    requires
        coherent(tree),
        tree.contains_key(parent),
        !tree.contains_key(snapshot.id),
    ensures
        coherent(inserted(tree, snapshot, parent)),
{
    let after = inserted(tree, snapshot, parent);
    let new = snapshot.id;
    let before = tree[parent].children;
    assert(after[parent].children == before.push(new));
    assert forall|id: Ref, child: Ref|
        after.contains_key(id) && #[trigger] after[id].children.contains(child) implies
        after.contains_key(child) && after[child].parent == Some(id) by {
        if id == parent {
            let i = after[id].children.index_of(child);
            if i < before.len() {
                assert(before[i] == child);
                assert(tree[id].children.contains(child));
            } else {
                assert(child == new);
            }
        } else if id != new {
            assert(tree[id].children.contains(child));
        }
    }
    assert forall|id: Ref| #[trigger] after.contains_key(id) implies (
    after[id].parent matches Some(above) ==> after.contains_key(above)
        && after[above].children.contains(id)) by {
        if id == new {
            assert(after[parent].children[before.len() as int] == new);
        } else {
            assert(tree.contains_key(id));
            match tree[id].parent {
                Some(above) => {
                    if above == parent {
                        let i = before.index_of(id);
                        assert(after[parent].children[i] == id);
                    }
                },
                None => {},
            }
        }
    }
    assert forall|id: Ref| #[trigger]
        after.contains_key(id) implies after[id].children.no_duplicates() by {
        if id == parent {
            assert(tree.contains_key(parent));
            assert(!before.contains(new));
        } else if id != new {
            assert(tree.contains_key(id));
        }
    }
}

/// What the list without an identity holds.
proof fn lemma_without(list: Seq<Ref>, id: Ref)
    ensures
        forall|other: Ref| #[trigger]
            without(list, id).contains(other) <==> list.contains(other) && other != id,
        list.no_duplicates() ==> without(list, id).no_duplicates(),
    decreases list.len(),
{
    if list.len() > 0 {
        let before = list.drop_last();
        let last = list.last();
        let kept = without(before, id);
        lemma_without(before, id);
        assert forall|other: Ref| list.contains(other) <==> before.contains(other) || other
            == last by {
            if list.contains(other) {
                let i = list.index_of(other);
                if i < before.len() {
                    assert(before[i] == other);
                }
            }
            if before.contains(other) {
                assert(list[before.index_of(other)] == other);
            }
            assert(list[list.len() - 1] == last);
        }
        if last != id {
            let all = kept.push(last);
            assert forall|other: Ref| #[trigger] all.contains(other) <==> kept.contains(other)
                || other == last by {
                if all.contains(other) {
                    let i = all.index_of(other);
                    if i < kept.len() {
                        assert(kept[i] == other);
                    }
                }
                if kept.contains(other) {
                    assert(all[kept.index_of(other)] == other);
                }
                assert(all[kept.len() as int] == last);
            }
            if list.no_duplicates() {
                assert(before.no_duplicates());
                assert(!before.contains(last)) by {
                    if before.contains(last) {
                        let i = before.index_of(last);
                        assert(list[i] == list[list.len() - 1]);
                    }
                }
                assert(!kept.contains(last));
                assert forall|i: int, j: int|
                    0 <= i < all.len() && 0 <= j < all.len() && i != j implies all[i] != all[j] by {
                    if i < kept.len() {
                        assert(all[i] == kept[i]);
                        assert(kept.contains(kept[i]));
                    }
                    if j < kept.len() {
                        assert(all[j] == kept[j]);
                        assert(kept.contains(kept[j]));
                    }
                }
            }
        } else {
            if list.no_duplicates() {
                assert(before.no_duplicates());
            }
        }
    }
}

/// What is below an instance is the instance itself or a child of something below it.
proof fn lemma_below_step(tree: TreeView, top: Ref, id: Ref) -> (above: Ref)
    requires
        is_below(tree, top, id),
        id != top,
    ensures
        is_below(tree, top, above),
        tree.contains_key(above),
        tree[above].children.contains(id),
{
    let way = choose|way: Seq<Ref>| #[trigger]
        is_way(tree, way) && way[0] == top && way.last() == id;
    let shorter = way.drop_last();
    assert(way.len() > 1);
    assert forall|i: int| 0 <= i < shorter.len() - 1 implies tree.contains_key(
        #[trigger] shorter[i],
    ) && tree[shorter[i]].children.contains(shorter[i + 1]) by {
        assert(shorter[i] == way[i]);
        assert(shorter[i + 1] == way[i + 1]);
    }
    assert(is_way(tree, shorter));
    assert(shorter[0] == way[0]);
    let above = shorter.last();
    assert(way[way.len() - 2] == above);
    above
}

/// Taking an instance and all that is below it from the tree leaves the tree coherent.
pub proof fn removal_of_an_instance_keeps_coherence(tree: TreeView, id: Ref)
    requires
        coherent(tree),
    ensures
        coherent(removed(tree, id)),
{
    if tree.contains_key(id) {
        let rest = detached(tree, id);
        let after = removed(tree, id);
        assert(rest.dom() =~= tree.dom());
        assert forall|other: Ref| tree.contains_key(other) implies #[trigger] rest[other].children
            == (if tree[id].parent == Some(other) {
            without(tree[other].children, id)
        } else {
            tree[other].children
        }) by {}
        assert forall|other: Ref, child: Ref|
            after.contains_key(other) && #[trigger] after[other].children.contains(child) implies
            after.contains_key(child) && after[child].parent == Some(other) by {
            lemma_without(tree[other].children, id);
            assert(rest[other].children.contains(child));
            assert(tree[other].children.contains(child));
            assert(child != id) by {
                if child == id {
                    assert(tree[id].parent == Some(other));
                    assert(without(tree[other].children, id).contains(id));
                }
            }
            if is_below(rest, id, child) {
                let above = lemma_below_step(rest, id, child);
                lemma_without(tree[above].children, id);
                assert(rest[above].children.contains(child));
                assert(tree[above].children.contains(child));
                assert(tree.contains_key(above));
                assert(above == other);
            }
        }
        assert forall|other: Ref| #[trigger] after.contains_key(other) implies (
        after[other].parent matches Some(above) ==> after.contains_key(above)
            && after[above].children.contains(other)) by {
            assert(tree.contains_key(other));
            match tree[other].parent {
                Some(above) => {
                    assert(tree[above].children.contains(other));
                    lemma_without(tree[above].children, id);
                    assert(is_way(rest, seq![id]));
                    assert(is_below(rest, id, id)) by {
                        assert(seq![id][0] == id && seq![id].last() == id);
                    }
                    assert(other != id);
                    assert(rest[above].children.contains(other));
                    if is_below(rest, id, above) {
                        lemma_way_down(rest, id, above, other);
                    }
                },
                None => {},
            }
        }
        assert forall|other: Ref| #[trigger]
            after.contains_key(other) implies after[other].children.no_duplicates() by {
            assert(tree.contains_key(other));
            lemma_without(tree[other].children, id);
        }
    }
}

/// Changes that leave all links between instances alone leave the tree coherent.
pub(crate) proof fn lemma_same_links(before: TreeView, after: TreeView)
    requires
        coherent(before),
        before.dom() == after.dom(),
        forall|id: Ref| #[trigger]
            before.contains_key(id) ==> before[id].children == after[id].children
                && before[id].parent == after[id].parent,
    ensures
        coherent(after),
{
    assert forall|id: Ref, child: Ref|
        after.contains_key(id) && #[trigger] after[id].children.contains(child) implies
        after.contains_key(child) && after[child].parent == Some(id) by {
        assert(before.contains_key(id));
        assert(before[id].children.contains(child));
        assert(before.contains_key(child));
    }
    assert forall|id: Ref| #[trigger] after.contains_key(id) implies (
    after[id].parent matches Some(above) ==> after.contains_key(above)
        && after[above].children.contains(id)) by {
        assert(before.contains_key(id));
        match before[id].parent {
            Some(above) => {
                assert(before.contains_key(above));
            },
            None => {},
        }
    }
    assert forall|id: Ref| #[trigger]
        after.contains_key(id) implies after[id].children.no_duplicates() by {
        assert(before.contains_key(id));
    }
}

/// An update leaves the tree coherent, whatever comes of it.
pub proof fn update_keeps_coherence(
    id: Ref,
    name: Option<Seq<char>>,
    properties: Option<Map<Seq<char>, Variant>>,
    tree: TreeView,
    replies: Seq<ReplyView>,
)
    requires
        coherent(tree),
    ensures
        coherent(update_tree(update_run(update_started(id, name, properties, tree), replies))),
{
    update_changes_one_instance(id, name, properties, tree, replies);
    let after = update_tree(update_run(update_started(id, name, properties, tree), replies));
    assert forall|other: Ref| #[trigger] tree.contains_key(other) implies tree[other].children
        == after[other].children && tree[other].parent == after[other].parent by {
        if other != id {
            assert(after[other] == tree[other]);
        }
    }
    lemma_same_links(tree, after);
}

/// The outcome of a removal, as far as it leaves the links between instances alone.
proof fn lemma_resourced(tree: TreeView, id: Ref, source: Option<SourceView>)
    requires
        coherent(tree),
    ensures
        coherent(resourced(tree, id, source)),
{
    let after = resourced(tree, id, source);
    assert(after.dom() =~= tree.dom());
    lemma_same_links(tree, after);
}

/// A removal leaves the tree coherent, whatever comes of it.
pub proof fn removal_keeps_coherence(id: Ref, tree: TreeView, replies: Seq<ReplyView>)
    requires
        coherent(tree),
    ensures
        coherent(removal_tree(removal_run(removal_started(id, tree), replies))),
{
    if tree.contains_key(id) {
        let used = lemma_run(RemovalView { tree, id, answers: Seq::empty() }, replies);
        match removing(id, tree[id].meta, parent_of(tree, id), used.answers) {
            FlowView::Done(finish) => {
                lemma_resourced(tree, id, finish.source);
                removal_of_an_instance_keeps_coherence(resourced(tree, id, finish.source), id);
            },
            _ => {},
        }
    }
}

/// A list without one of its identities has the others as they were.
proof fn lemma_without_one(before: Seq<Ref>, id: Ref, after: Seq<Ref>)
    requires
        !before.contains(id),
        !after.contains(id),
    ensures
        without(before + seq![id] + after, id) == before + after,
    decreases before.len() + after.len(),
{
    let list = before + seq![id] + after;
    if after.len() > 0 {
        let shorter = after.drop_last();
        assert(list.drop_last() =~= before + seq![id] + shorter);
        assert(list.last() == after.last());
        assert(after.contains(after.last())) by {
            assert(after[after.len() - 1] == after.last());
        }
        assert(!shorter.contains(id)) by {
            if shorter.contains(id) {
                assert(after[shorter.index_of(id)] == id);
            }
        }
        lemma_without_one(before, id, shorter);
        assert((before + shorter).push(after.last()) =~= before + after);
    } else {
        assert(list.drop_last() =~= before);
        assert(list.last() == id);
        lemma_without_none(before, id);
        assert(before + after =~= before);
    }
}

proof fn lemma_without_none(list: Seq<Ref>, id: Ref)
    requires
        !list.contains(id),
    ensures
        without(list, id) == list,
    decreases list.len(),
{
    if list.len() > 0 {
        let shorter = list.drop_last();
        assert(list.contains(list.last())) by {
            assert(list[list.len() - 1] == list.last());
        }
        assert(!shorter.contains(id)) by {
            if shorter.contains(id) {
                assert(list[shorter.index_of(id)] == id);
            }
        }
        lemma_without_none(shorter, id);
        assert(shorter.push(list.last()) =~= list);
    }
}

/// A removal that succeeded took a whole branch from the tree: the instance is gone, any other
/// instance is gone exactly if the one above it is, and those that have none above are still there.
/// What is left is as it was, but that the instance above no longer lists the one that was removed;
/// its other children are still there in their order.
pub proof fn successful_removal_takes_a_branch(id: Ref, tree: TreeView, replies: Seq<ReplyView>)
    requires
        coherent(tree),
        tree.contains_key(id),
    ensures
        removal_run(removal_started(id, tree), replies) matches StepView::Stop(
            Ok(_),
            after,
            _,
        ) ==> {
            &&& !after.contains_key(id)
            &&& forall|other: Ref| #[trigger] after.contains_key(other) ==> tree.contains_key(other)
            &&& forall|other: Ref| #[trigger]
                tree.contains_key(other) && other != id ==> (match tree[other].parent {
                    Some(above) => after.contains_key(other) <==> after.contains_key(above),
                    None => after.contains_key(other),
                })
            &&& forall|other: Ref| #[trigger]
                after.contains_key(other) && tree[id].parent != Some(other) ==> after[other]
                    == tree[other]
            &&& tree[id].parent matches Some(above) ==> after.contains_key(above) ==> exists|
                before: Seq<Ref>,
                behind: Seq<Ref>,
            |
                tree[above].children == #[trigger] (before + seq![id] + behind)
                    && after[above].children == before + behind && after[above].name
                    == tree[above].name && after[above].class == tree[above].class
                    && after[above].properties == tree[above].properties && after[above].parent
                    == tree[above].parent
        },
{
    let rest = detached(tree, id);
    successful_removal_takes_what_is_below(id, tree, replies);
    match removal_run(removal_started(id, tree), replies) {
        StepView::Stop(Ok(_), after, _) => {
            assert(rest.dom() =~= tree.dom());
            assert forall|other: Ref| #[trigger]
                tree.contains_key(other) && other != id implies (match tree[other].parent {
                Some(above) => after.contains_key(other) <==> after.contains_key(above),
                None => after.contains_key(other),
            }) by {
                if is_below(rest, id, other) {
                    let above = lemma_below_step(rest, id, other);
                    lemma_without(tree[above].children, id);
                    assert(tree[above].children.contains(other));
                    assert(tree[other].parent == Some(above));
                } else {
                    match tree[other].parent {
                        Some(above) => {
                            assert(tree[above].children.contains(other));
                            lemma_without(tree[above].children, id);
                            assert(rest[above].children.contains(other));
                            if is_below(rest, id, above) {
                                lemma_way_down(rest, id, above, other);
                            }
                        },
                        None => {},
                    }
                }
            }
            match tree[id].parent {
                Some(above) => {
                    if after.contains_key(above) {
                        let list = tree[above].children;
                        assert(list.contains(id));
                        let i = list.index_of(id);
                        let before = list.take(i);
                        let behind = list.skip(i + 1);
                        assert(list =~= before + seq![id] + behind);
                        assert(list.no_duplicates());
                        assert(!before.contains(id)) by {
                            if before.contains(id) {
                                assert(list[before.index_of(id)] == list[i]);
                            }
                        }
                        assert(!behind.contains(id)) by {
                            if behind.contains(id) {
                                assert(list[behind.index_of(id) + i + 1] == list[i]);
                            }
                        }
                        lemma_without_one(before, id, behind);
                    }
                },
                None => {},
            }
        },
        _ => {},
    }
}

/// Every instance has a place outside the tree, so that it can be added to, updated and removed.
pub open spec fn placed(tree: TreeView) -> bool {
    forall|id: Ref| #[trigger]
        tree.contains_key(id) ==> !(tree[id].meta.source.inner is Nowhere)
}

/// After an update every instance still has a place.
pub proof fn update_keeps_places(
    id: Ref,
    name: Option<Seq<char>>,
    properties: Option<Map<Seq<char>, Variant>>,
    tree: TreeView,
    replies: Seq<ReplyView>,
)
    requires
        placed(tree),
    ensures
        placed(update_tree(update_run(update_started(id, name, properties, tree), replies))),
{
    let after = update_tree(update_run(update_started(id, name, properties, tree), replies));
    update_changes_one_instance(id, name, properties, tree, replies);
    if tree.contains_key(id) {
        update_keeps_a_place(id, name, properties, tree, replies);
    }
    assert forall|other: Ref| #[trigger] after.contains_key(other) implies !(
    after[other].meta.source.inner is Nowhere) by {
        assert(tree.contains_key(other));
        if other != id {
            assert(after[other] == tree[other]);
        }
    }
}

/// After a removal every instance that is left still has a place.
pub proof fn removal_keeps_places(id: Ref, tree: TreeView, replies: Seq<ReplyView>)
    requires
        placed(tree),
    ensures
        placed(removal_tree(removal_run(removal_started(id, tree), replies))),
{
    if tree.contains_key(id) {
        let used = lemma_run(RemovalView { tree, id, answers: Seq::empty() }, replies);
        lemma_removing(id, tree[id].meta, parent_of(tree, id), used.answers);
        match removing(id, tree[id].meta, parent_of(tree, id), used.answers) {
            FlowView::Done(finish) => {
                let moved = resourced(tree, id, finish.source);
                assert forall|other: Ref| #[trigger] moved.contains_key(other) implies !(
                moved[other].meta.source.inner is Nowhere) by {
                    assert(tree.contains_key(other));
                }
                let after = removed(moved, id);
                assert forall|other: Ref| #[trigger] after.contains_key(other) implies !(
                after[other].meta.source.inner is Nowhere) by {
                    assert(moved.contains_key(other));
                }
            },
            _ => {},
        }
    }
}

} // verus!
