//! Laws of additions to the nodes of a project.
use crate::exchange::{ErrorView, ReplyView, RequestView, StepView};
use crate::laws::addition::{addition_run, addition_tree, fresh, ids, ids_of, lemma_ids};
use crate::laws::basics::{
    own_words, paths_lead_down_by_names, replacing_a_node_keeps_the_others, same_elsewhere,
};
use crate::laws::content::is_flat;
use crate::laws::talk::{addition_talk, Talk};
use crate::meta::{EntryView, KindView, SyncRule};
use crate::node::{node_at, with_node_at, NodeView};
use crate::properties::{serialized, validated};
use crate::snapshot::SnapshotView;
use crate::tree::{inserted, InstanceView, TreeView};
use crate::write::addition::{addition_started, project_meta, with_instances_for, with_nodes_for};
use rbx_dom_weak::types::Ref;
use vstd::prelude::*;

verus! {

/// What the node for a new instance says itself: its class, its properties and whether unknown
/// children are kept.
pub open spec fn node_says(node: NodeView, snapshot: SnapshotView) -> bool {
    &&& node.class_name == Some(snapshot.class)
    &&& node.properties == serialized(snapshot.class, snapshot.properties)
    &&& node.keep_unknowns == (if snapshot.meta.keep_unknowns {
        Some(true)
    } else {
        None
    })
    &&& node.path is None
    &&& node.attributes is None
    &&& node.tags.len() == 0
}

/// No later snapshot of a list has the same name.
pub open spec fn is_last_named(list: Seq<SnapshotView>, i: int) -> bool {
    forall|j: int| i < j < list.len() ==> (#[trigger] list[j]).name != list[i].name
}

/// A list has a snapshot with a name.
pub open spec fn has_named(list: Seq<SnapshotView>, name: Seq<char>) -> bool {
    exists|i: int| 0 <= i < list.len() && (#[trigger] list[i]).name == name
}

/// Nodes by name are those for the snapshots of a list, and under each name is the last one that
/// has it, with all that is below it.
pub open spec fn nodes_match(nodes: Map<Seq<char>, NodeView>, list: Seq<SnapshotView>) -> bool
    decreases list,
{
    &&& forall|name: Seq<char>| #[trigger] nodes.contains_key(name) <==> has_named(list, name)
    &&& forall|i: int|
        0 <= i < list.len() ==> #[trigger] is_last_named(list, i) ==> node_says(
            nodes[list[i].name],
            list[i],
        ) && nodes_match(nodes[list[i].name].tree, list[i].children)
}

/// From a snapshot down by names, each time to the last one that has the name.
pub open spec fn leads_to(
    list: Seq<SnapshotView>,
    names: Seq<Seq<char>>,
    snapshot: SnapshotView,
) -> bool
    decreases names.len(),
{
    exists|i: int|
        0 <= i < list.len() && #[trigger] is_last_named(list, i) && names.len() > 0 && list[i].name
            == names[0] && (if names.len() == 1 {
            list[i] == snapshot
        } else {
            leads_to(list[i].children, names.skip(1), snapshot)
        })
}

/// The nodes for new instances, in place of others with their names.
proof fn lemma_nodes_for(nodes: Map<Seq<char>, NodeView>, list: Seq<SnapshotView>)
    ensures
        ({
            let after = with_nodes_for(nodes, list);
            &&& forall|name: Seq<char>| #[trigger]
                after.contains_key(name) <==> nodes.contains_key(name) || has_named(list, name)
            &&& forall|name: Seq<char>|
                nodes.contains_key(name) && !has_named(list, name) ==> #[trigger] after[name]
                    == nodes[name]
            &&& forall|i: int|
                0 <= i < list.len() ==> #[trigger] is_last_named(list, i) ==> node_says(
                    after[list[i].name],
                    list[i],
                ) && nodes_match(after[list[i].name].tree, list[i].children)
        }),
    decreases list,
{
    let after = with_nodes_for(nodes, list);
    if list.len() > 0 {
        let first = list.drop_last();
        let last = list.last();
        let n = list.len() - 1;
        let before = with_nodes_for(nodes, first);
        let below = with_nodes_for(Map::empty(), last.children);
        lemma_nodes_for(nodes, first);
        lemma_nodes_for(Map::empty(), last.children);
        assert(nodes_match(below, last.children));
        assert(list[n] == last);
        assert forall|name: Seq<char>| has_named(list, name) <==> (has_named(first, name)
            || last.name == name) by {
            if has_named(list, name) {
                let i = choose|i: int| 0 <= i < list.len() && (#[trigger] list[i]).name == name;
                if i < n {
                    assert(first[i] == list[i]);
                }
            }
            if has_named(first, name) {
                let i = choose|i: int| 0 <= i < first.len() && (#[trigger] first[i]).name == name;
                assert(first[i] == list[i]);
            }
        }
        assert forall|i: int| 0 <= i < list.len() && #[trigger] is_last_named(list, i) implies {
            &&& node_says(after[list[i].name], list[i])
            &&& nodes_match(after[list[i].name].tree, list[i].children)
        } by {
            if i < n {
                assert(first[i] == list[i]);
                assert(list[n].name != list[i].name);
                assert(is_last_named(first, i)) by {
                    assert forall|j: int| i < j < first.len() implies (#[trigger] first[j]).name
                        != first[i].name by {
                        assert(first[j] == list[j]);
                    }
                }
            }
        }
    }
}

/// The project with the node for a new instance and with those for all that is below it: the node
/// that it was added to has one more below, or another in place of one with the same name, and
/// nothing else in the project has changed.
pub open spec fn node_is_planted(
    loaded: NodeView,
    saved: NodeView,
    path: Seq<Seq<char>>,
    given: SnapshotView,
) -> bool {
    &&& same_elsewhere(saved, loaded, path)
    &&& match (node_at(loaded, path), node_at(saved, path)) {
        (Some(before), Some(after)) => {
            &&& own_words(after) == own_words(before)
            &&& after.tree.dom() == before.tree.dom().insert(given.name)
            &&& forall|name: Seq<char>|
                before.tree.contains_key(name) && name != given.name ==> #[trigger] after.tree[name]
                    == before.tree[name]
            &&& node_says(after.tree[given.name], given)
            &&& nodes_match(after.tree[given.name].tree, given.children)
        },
        _ => false,
    }
}

/// The request is the next one of an addition to a project: the project is loaded first, and then
/// saved with the new nodes.
pub open spec fn planting_fits(
    path: Seq<char>,
    node_path: Seq<Seq<char>>,
    given: SnapshotView,
    talk: Talk,
    request: RequestView,
) -> bool {
    match request {
        RequestView::Load(asked) => talk.len() == 0 && asked == path,
        RequestView::Save { path: asked, project } => {
            &&& talk.len() == 1
            &&& asked == path
            &&& talk[0].1 matches ReplyView::Project(loaded) && node_is_planted(
                loaded,
                project,
                node_path,
                given,
            )
        },
        _ => false,
    }
}

/// New instances and all that is below them, with the path of the node that each is below.
pub open spec fn with_paths(list: Seq<SnapshotView>, way: Seq<Seq<char>>) -> Seq<
    (Seq<Seq<char>>, SnapshotView),
>
    decreases list,
{
    if list.len() == 0 {
        Seq::empty()
    } else {
        seq![(way, list[0])] + with_paths(list[0].children, way.push(list[0].name)) + with_paths(
            list.skip(1),
            way,
        )
    }
}

/// An instance is the one for a snapshot that has become a node of a project, and a child of
/// `parent` without children.
pub open spec fn is_node_instance(
    instance: InstanceView,
    snapshot: SnapshotView,
    parent: Ref,
    path: Seq<char>,
    way: Seq<Seq<char>>,
    context: Seq<SyncRule>,
) -> bool {
    &&& instance.parent == Some(parent)
    &&& instance.children.len() == 0
    &&& instance.name == snapshot.name
    &&& instance.class == snapshot.class
    &&& instance.properties == snapshot.properties
    &&& instance.meta.context == context
    &&& instance.meta.keep_unknowns == snapshot.meta.keep_unknowns
    &&& instance.meta.source.relevants == seq![EntryView::Project(path)]
    &&& instance.meta.source.inner matches KindView::Project(name, file, node, node_path) && name
        == snapshot.name && file == path && node_path == way.push(snapshot.name) && node_says(
        node,
        snapshot,
    ) && node.tree.dom() == Set::<Seq<char>>::empty()
}

/// The identities of new instances, in order.
pub open spec fn new_ids(new: Seq<(Seq<Seq<char>>, SnapshotView)>) -> Seq<Ref> {
    new.map_values(|entry: (Seq<Seq<char>>, SnapshotView)| entry.1.id)
}

/// The tree has the new instances as further children of `parent`, in order, and is otherwise as it
/// was.
pub open spec fn tree_is_planted(
    before: TreeView,
    after: TreeView,
    parent: Ref,
    path: Seq<char>,
    new: Seq<(Seq<Seq<char>>, SnapshotView)>,
    context: Seq<SyncRule>,
) -> bool {
    &&& after.contains_key(parent)
    &&& after[parent] == (InstanceView {
        children: before[parent].children + new_ids(new),
        ..before[parent]
    })
    &&& forall|i: int|
        0 <= i < new.len() ==> after.contains_key((#[trigger] new[i]).1.id) && is_node_instance(
            after[new[i].1.id],
            new[i].1,
            parent,
            path,
            new[i].0,
            context,
        )
    &&& forall|id: Ref| #[trigger] before.contains_key(id) ==> after.contains_key(id)
    &&& forall|id: Ref|
        before.contains_key(id) && id != parent ==> #[trigger] after[id] == before[id]
    &&& forall|id: Ref| #[trigger]
        after.contains_key(id) ==> before.contains_key(id) || exists|i: int|
            0 <= i < new.len() && (#[trigger] new[i]).1.id == id
}

/// New instances in order, when the last of a list is taken apart instead of the first.
proof fn lemma_with_paths_last(list: Seq<SnapshotView>, way: Seq<Seq<char>>)
    requires
        list.len() > 0,
    ensures
        with_paths(list, way) == with_paths(list.drop_last(), way) + seq![(way, list.last())]
            + with_paths(list.last().children, way.push(list.last().name)),
    decreases list.len(),
{
    let first = list.drop_last();
    let rest = list.skip(1);
    let head = seq![(way, list[0])] + with_paths(list[0].children, way.push(list[0].name));
    if list.len() == 1 {
        assert(with_paths(rest, way) =~= Seq::empty());
        assert(with_paths(first, way) =~= Seq::empty());
        assert(with_paths(list, way) =~= with_paths(first, way) + seq![(way, list.last())]
            + with_paths(list.last().children, way.push(list.last().name)));
    } else {
        lemma_with_paths_last(rest, way);
        assert(rest.drop_last() =~= first.skip(1));
        assert(rest.last() == list.last());
        assert(first[0] == list[0]);
        assert(with_paths(first, way) == head + with_paths(first.skip(1), way));
        assert(with_paths(list, way) =~= with_paths(first, way) + seq![(way, list.last())]
            + with_paths(list.last().children, way.push(list.last().name)));
    }
}

/// The identities in order are those of the list.
proof fn lemma_ids_with_paths(list: Seq<SnapshotView>, way: Seq<Seq<char>>)
    ensures
        forall|i: int|
            0 <= i < with_paths(list, way).len() ==> ids_of(list).count(
                (#[trigger] with_paths(list, way)[i]).1.id,
            ) > 0,
    decreases list,
{
    if list.len() > 0 {
        let last = list.last();
        let a = with_paths(list.drop_last(), way);
        let b = with_paths(last.children, way.push(last.name));
        let all = with_paths(list, way);
        lemma_with_paths_last(list, way);
        lemma_ids_with_paths(list.drop_last(), way);
        lemma_ids_with_paths(last.children, way.push(last.name));
        assert forall|i: int| 0 <= i < all.len() implies ids_of(list).count(
            (#[trigger] all[i]).1.id,
        ) > 0 by {
            if i < a.len() {
                assert(all[i] == a[i]);
            } else if i == a.len() {
                assert(all[i] == (way, last));
            } else {
                assert(all[i] == b[i - a.len() - 1]);
            }
        }
    }
}

/// Two plantings one after the other are one.
proof fn lemma_planted_both(
    before: TreeView,
    middle: TreeView,
    after: TreeView,
    parent: Ref,
    path: Seq<char>,
    a: Seq<(Seq<Seq<char>>, SnapshotView)>,
    b: Seq<(Seq<Seq<char>>, SnapshotView)>,
    context: Seq<SyncRule>,
)
    requires
        before.contains_key(parent),
        tree_is_planted(before, middle, parent, path, a, context),
        tree_is_planted(middle, after, parent, path, b, context),
        forall|i: int| 0 <= i < a.len() ==> (#[trigger] a[i]).1.id != parent,
    ensures
        tree_is_planted(before, after, parent, path, a + b, context),
{
    let all = a + b;
    assert(new_ids(a) + new_ids(b) =~= new_ids(all));
    assert(after[parent].children =~= before[parent].children + new_ids(all));
    assert(after[parent] == (InstanceView {
        children: before[parent].children + new_ids(all),
        ..before[parent]
    }));
    assert forall|i: int| 0 <= i < all.len() implies after.contains_key((#[trigger] all[i]).1.id)
        && is_node_instance(after[all[i].1.id], all[i].1, parent, path, all[i].0, context) by {
        if i < a.len() {
            assert(all[i] == a[i]);
            assert(after[a[i].1.id] == middle[a[i].1.id]);
        } else {
            assert(all[i] == b[i - a.len()]);
        }
    }
    assert forall|id: Ref| before.contains_key(id) && id != parent implies #[trigger] after[id]
        == before[id] by {
        assert(middle[id] == before[id]);
        assert(after[id] == middle[id]);
    }
    assert forall|id: Ref| #[trigger] after.contains_key(id) implies before.contains_key(id)
        || exists|i: int| 0 <= i < all.len() && (#[trigger] all[i]).1.id == id by {
        if !before.contains_key(id) {
            if middle.contains_key(id) {
                let i = choose|i: int| 0 <= i < a.len() && (#[trigger] a[i]).1.id == id;
                assert(all[i] == a[i]);
            } else {
                let i = choose|i: int| 0 <= i < b.len() && (#[trigger] b[i]).1.id == id;
                assert(all[i + a.len()] == b[i]);
            }
        }
    }
}

/// The instances for new nodes, in a tree that has none of them.
proof fn lemma_planted(
    tree: TreeView,
    parent: Ref,
    path: Seq<char>,
    way: Seq<Seq<char>>,
    list: Seq<SnapshotView>,
    context: Seq<SyncRule>,
)
    requires
        tree.contains_key(parent),
        fresh(tree, ids_of(list)),
    ensures
        tree_is_planted(
            tree,
            with_instances_for(tree, parent, path, way, list, context),
            parent,
            path,
            with_paths(list, way),
            context,
        ),
    decreases list,
{
    if list.len() == 0 {
        assert(tree[parent].children =~= tree[parent].children + new_ids(with_paths(list, way)));
    } else {
        let last = list.last();
        let first = list.drop_last();
        let deeper = way.push(last.name);
        let all = ids_of(list);
        let before = with_instances_for(tree, parent, path, way, first, context);
        let meta = project_meta(last, path, way, context);
        let middle = inserted(before, SnapshotView { meta, ..last }, parent);
        let after = with_instances_for(middle, parent, path, deeper, last.children, context);
        let a = with_paths(first, way);
        let b = seq![(way, last)];
        let c = with_paths(last.children, deeper);
        assert(all == ids_of(first).insert(last.id).add(ids_of(last.children)));
        assert forall|id: Ref| #[trigger] ids_of(first).count(id) > 0 implies ids_of(first).count(
            id,
        ) == 1 && !tree.contains_key(id) by {
            assert(all.count(id) > 0);
        }
        lemma_planted(tree, parent, path, way, first, context);
        lemma_ids_with_paths(first, way);
        assert(all.count(last.id) == 1);
        assert(!before.contains_key(last.id)) by {
            if before.contains_key(last.id) {
                assert(!tree.contains_key(last.id));
                let i = choose|i: int| 0 <= i < a.len() && (#[trigger] a[i]).1.id == last.id;
                assert(ids_of(first).count(a[i].1.id) > 0);
            }
        }
        assert(b[0].1.id == last.id);
        assert(before[parent].children.push(last.id) =~= before[parent].children + new_ids(b));
        assert(tree_is_planted(before, middle, parent, path, b, context));
        assert forall|id: Ref| #[trigger]
            ids_of(last.children).count(id) > 0 implies ids_of(last.children).count(id) == 1
            && !middle.contains_key(id) by {
            assert(all.count(id) == 1);
            if middle.contains_key(id) {
                assert(id != last.id);
                assert(before.contains_key(id));
                let i = choose|i: int| 0 <= i < a.len() && (#[trigger] a[i]).1.id == id;
                assert(ids_of(first).count(a[i].1.id) > 0);
            }
        }
        lemma_planted(middle, parent, path, deeper, last.children, context);
        assert forall|i: int| 0 <= i < a.len() implies (#[trigger] a[i]).1.id != parent by {
            assert(ids_of(first).count(a[i].1.id) > 0);
        }
        lemma_planted_both(tree, before, middle, parent, path, a, b, context);
        let ab = a + b;
        assert forall|i: int| 0 <= i < ab.len() implies (#[trigger] ab[i]).1.id != parent by {
            if i < a.len() {
                assert(ab[i] == a[i]);
            } else {
                assert(ab[i] == b[0]);
            }
        }
        lemma_planted_both(tree, middle, after, parent, path, ab, c, context);
        lemma_with_paths_last(list, way);
    }
}

/// An addition to the nodes of a project loads the project and saves it with a node for every new
/// instance, each below the node of the instance that it is below, and otherwise as it was loaded.
/// It succeeds if the project has the node and both are answered, and then the tree has all new
/// instances.
pub proof fn addition_to_a_project_plants_all(
    snapshot: SnapshotView,
    parent: Ref,
    tree: TreeView,
    replies: Seq<ReplyView>,
)
    requires
        tree.contains_key(parent),
        is_flat(tree[parent].meta),
    ensures
        ({
            let started = addition_started(snapshot, parent, tree);
            let talk = addition_talk(started, replies);
            let given = SnapshotView { properties: validated(snapshot.properties), ..snapshot };
            let meta = tree[parent].meta;
            let step = addition_run(started, replies);
            meta.source.inner matches KindView::Project(_, path, _, node_path) && {
                let has_node = talk.len() > 0 && (talk[0].1 matches ReplyView::Project(loaded)
                    && node_at(loaded, node_path) is Some);
                &&& forall|k: int|
                    0 <= k < talk.len() ==> planting_fits(
                        path,
                        node_path,
                        given,
                        talk.take(k),
                        (#[trigger] talk[k]).0,
                    )
                &&& if has_node {
                    fresh(tree, ids(snapshot)) ==> tree_is_planted(
                        tree,
                        addition_tree(step),
                        parent,
                        path,
                        with_paths(seq![given], node_path),
                        meta.context,
                    )
                } else {
                    addition_tree(step) == tree
                }
                &&& match step {
                    StepView::Ask(request, _) => planting_fits(
                        path,
                        node_path,
                        given,
                        talk,
                        request,
                    ),
                    StepView::Stop(Ok(_), _, notice) => talk.len() == 2 && talk[1].1 is Done
                        && notice is None,
                    StepView::Stop(Err(error), _, notice) => {
                        &&& talk.len() > 0
                        &&& notice is None
                        &&& match talk.last().1 {
                            ReplyView::Failed(reason) => error == ErrorView::Failed(reason),
                            ReplyView::Project(_) if talk.len() == 1 => !has_node && error
                                == ErrorView::NoNode(node_path),
                            reply => error is Mismatch && (talk.len() == 2 ==> reply !is Done),
                        }
                    },
                }
            }
        }),
{
    let started = addition_started(snapshot, parent, tree);
    let talk = addition_talk(started, replies);
    let given = SnapshotView { properties: validated(snapshot.properties), ..snapshot };
    let meta = tree[parent].meta;
    reveal_with_fuel(addition_run, 3);
    reveal_with_fuel(addition_talk, 3);
    match meta.source.inner {
        KindView::Project(_, path, _, node_path) => {
            if replies.len() == 0 {
                assert(talk =~= Seq::empty());
            } else {
                let first = (RequestView::Load(path), replies[0]);
                let rest = replies.skip(1);
                match replies[0] {
                    ReplyView::Project(loaded) if node_at(loaded, node_path) is Some => {
                        let node = node_at(loaded, node_path)->0;
                        let new = NodeView {
                            tree: with_nodes_for(node.tree, seq![given]),
                            ..node
                        };
                        lemma_nodes_for(node.tree, seq![given]);
                        assert(is_last_named(seq![given], 0));
                        assert forall|name: Seq<char>| has_named(seq![given], name) <==> name
                            == given.name by {
                            assert(seq![given][0].name == given.name);
                        }
                        assert(new.tree.dom() =~= node.tree.dom().insert(given.name));
                        replacing_a_node_keeps_the_others(loaded, node_path, new);
                        if fresh(tree, ids(snapshot)) {
                            lemma_ids(snapshot);
                            lemma_ids(given);
                            lemma_planted(
                                tree,
                                parent,
                                path,
                                node_path,
                                seq![given],
                                meta.context,
                            );
                        }
                        if replies.len() == 1 {
                            assert(talk =~= seq![first]);
                        } else {
                            let saved = with_node_at(loaded, node_path, new);
                            let second = (
                                RequestView::Save { path, project: saved },
                                replies[1],
                            );
                            assert(rest[0] == replies[1]);
                            assert(talk =~= seq![first, second]);
                        }
                    },
                    _ => {
                        assert(talk =~= seq![first]);
                    },
                }
                assert(talk.take(0).len() == 0);
                if talk.len() == 2 {
                    assert(talk.take(1)[0] == talk[0]);
                }
            }
        },
        _ => {},
    }
}

/// Nodes that match a list are found by names.
proof fn lemma_found(
    project: NodeView,
    way: Seq<Seq<char>>,
    list: Seq<SnapshotView>,
    names: Seq<Seq<char>>,
    snapshot: SnapshotView,
)
    requires
        node_at(project, way) matches Some(node) && forall|i: int|
            0 <= i < list.len() ==> #[trigger] is_last_named(list, i) ==> node.tree.contains_key(
                list[i].name,
            ) && node_says(node.tree[list[i].name], list[i]) && nodes_match(
                node.tree[list[i].name].tree,
                list[i].children,
            ),
        leads_to(list, names, snapshot),
    ensures
        node_at(project, way + names) matches Some(node) && node_says(node, snapshot)
            && nodes_match(node.tree, snapshot.children),
    decreases names.len(),
{
    let i = choose|i: int|
        0 <= i < list.len() && #[trigger] is_last_named(list, i) && names.len() > 0 && list[i].name
            == names[0] && (if names.len() == 1 {
            list[i] == snapshot
        } else {
            leads_to(list[i].children, names.skip(1), snapshot)
        });
    let next = way.push(names[0]);
    paths_lead_down_by_names(project, way, names[0]);
    if names.len() == 1 {
        assert(way + names =~= next);
    } else {
        let below = list[i].children;
        let node = node_at(project, next)->0;
        assert forall|j: int| 0 <= j < below.len() && #[trigger] is_last_named(
            below,
            j,
        ) implies node.tree.contains_key(below[j].name) && node_says(
            node.tree[below[j].name],
            below[j],
        ) && nodes_match(node.tree[below[j].name].tree, below[j].children) by {
            assert(has_named(below, below[j].name));
        }
        lemma_found(project, next, below, names.skip(1), snapshot);
        assert(next + names.skip(1) =~= way + names);
    }
}

/// In the project that an addition saves, every new instance has a node: from the node of the
/// instance that was added to the names of the new ones lead to it, and it has the class and the
/// properties of that instance and, below it, nodes with the names of what is below that instance
/// and no others.
pub proof fn every_new_instance_has_its_node(
    snapshot: SnapshotView,
    parent: Ref,
    tree: TreeView,
    replies: Seq<ReplyView>,
    names: Seq<Seq<char>>,
    new: SnapshotView,
)
    requires
        tree.contains_key(parent),
        is_flat(tree[parent].meta),
        leads_to(
            seq![SnapshotView { properties: validated(snapshot.properties), ..snapshot }],
            names,
            new,
        ),
    ensures
        ({
            let started = addition_started(snapshot, parent, tree);
            let talk = addition_talk(started, replies);
            &&& addition_run(started, replies) matches StepView::Stop(Ok(_), _, _) ==> talk.len()
                == 2
            &&& talk.len() == 2 ==> (talk[1].0 matches RequestView::Save { project: saved, .. }
                && tree[parent].meta.source.inner matches KindView::Project(_, _, _, node_path)
                && node_at(saved, node_path + names) matches Some(node) && node.class_name == Some(
                new.class,
            ) && node.properties == serialized(new.class, new.properties) && forall|name: Seq<char>|

                #[trigger] node.tree.contains_key(name) <==> has_named(new.children, name))
        }),
{
    let started = addition_started(snapshot, parent, tree);
    let talk = addition_talk(started, replies);
    let given = SnapshotView { properties: validated(snapshot.properties), ..snapshot };
    addition_to_a_project_plants_all(snapshot, parent, tree, replies);
    if talk.len() == 2 {
        assert(planting_fits(
            tree[parent].meta.source.inner->Project_1,
            tree[parent].meta.source.inner->Project_3,
            given,
            talk.take(1),
            talk[1].0,
        ));
        let saved = talk[1].0->Save_project;
        let node_path = tree[parent].meta.source.inner->Project_3;
        assert forall|i: int| 0 <= i < seq![given].len() && #[trigger] is_last_named(
            seq![given],
            i,
        ) implies node_at(saved, node_path)->0.tree.contains_key(given.name) by {}
        lemma_found(saved, node_path, seq![given], names, new);
    }
}

} // verus!
