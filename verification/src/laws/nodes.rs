//! Laws of project files.
use crate::exchange::{FlowView, ReplyView, RequestView};
use crate::laws::removal::lemma_disposing;
use crate::meta::{KindView, MetaView, SyncRule};
use crate::node::{node_at, parent_path, with_node_at, NodeView};
use crate::path::custom_place;
use crate::properties::{serialized, validated, EMPTY_MARK};
use crate::snapshot::SnapshotView;
use crate::tree::InstanceView;
use crate::write::addition::{project_meta, with_nodes_for};
use crate::write::removal::{has_node, removing, without_node, FinishView};
use crate::write::update::{cleared, renamed_child, revising, rewritten, updating, EndView};
use rbx_dom_weak::types::{Ref, Variant};
use vstd::prelude::*;

verus! {

/// A node that was put at a path is found there.
pub proof fn replaced_node_is_found(project: NodeView, path: Seq<Seq<char>>, new: NodeView)
    requires
        node_at(project, path) is Some,
    ensures
        node_at(with_node_at(project, path, new), path) == Some(new),
    decreases path.len(),
{
    if path.len() > 0 {
        replaced_node_is_found(project.tree[path[0]], path.skip(1), new);
    }
}

/// Of two nodes that are put at a path the second one stays.
pub proof fn last_replacement_stays(
    project: NodeView,
    path: Seq<Seq<char>>,
    first: NodeView,
    second: NodeView,
)
    requires
        node_at(project, path) is Some,
    ensures
        with_node_at(with_node_at(project, path, first), path, second) == with_node_at(
            project,
            path,
            second,
        ),
    decreases path.len(),
{
    if path.len() > 0 {
        last_replacement_stays(project.tree[path[0]], path.skip(1), first, second);
        let twice = with_node_at(with_node_at(project, path, first), path, second);
        assert(twice.tree =~= with_node_at(project, path, second).tree);
    }
}

/// A node that is put where it was changes nothing.
pub proof fn own_replacement_changes_nothing(project: NodeView, path: Seq<Seq<char>>)
    requires
        node_at(project, path) is Some,
    ensures
        with_node_at(project, path, node_at(project, path)->0) == project,
    decreases path.len(),
{
    if path.len() > 0 {
        own_replacement_changes_nothing(project.tree[path[0]], path.skip(1));
        assert(with_node_at(project, path, node_at(project, path)->0).tree =~= project.tree);
    }
}

/// An instance that was added to a project is a node of it, at the place that its source names,
/// and when it is removed from there the project is what it was before.
pub proof fn added_node_can_be_removed(
    project: NodeView,
    path: Seq<char>,
    node_path: Seq<Seq<char>>,
    snapshot: SnapshotView,
    context: Seq<SyncRule>,
)
    requires
        node_at(project, node_path) matches Some(node) && !node.tree.contains_key(snapshot.name),
    ensures
        ({
            let node = node_at(project, node_path)->0;
            let grown = with_node_at(
                project,
                node_path,
                NodeView { tree: with_nodes_for(node.tree, seq![snapshot]), ..node },
            );
            match project_meta(snapshot, path, node_path, context).source.inner {
                KindView::Project(own, _, _, own_path) => {
                    &&& has_node(grown, parent_path(own_path), own)
                    &&& node_at(grown, own_path) is Some
                    &&& without_node(grown, parent_path(own_path), own) == project
                },
                _ => false,
            }
        }),
{
    let node = node_at(project, node_path)->0;
    let list = seq![snapshot];
    let nodes = with_nodes_for(node.tree, list);
    assert(list.drop_last().len() == 0);
    assert(list.last() == snapshot);
    assert(with_nodes_for(node.tree, list.drop_last()) == node.tree);
    assert(nodes.contains_key(snapshot.name));
    assert(nodes.remove(snapshot.name) =~= node.tree);
    let new = NodeView { tree: nodes, ..node };
    let grown = with_node_at(project, node_path, new);
    let own_path = node_path.push(snapshot.name);
    assert(parent_path(own_path) =~= node_path);
    replaced_node_is_found(project, node_path, new);
    lemma_node_below(grown, node_path, snapshot.name);
    let back = NodeView { tree: new.tree.remove(snapshot.name), ..new };
    assert(back =~= node);
    last_replacement_stays(project, node_path, new, back);
    own_replacement_changes_nothing(project, node_path);
}

/// The node below the one that a path leads to.
proof fn lemma_node_below(project: NodeView, path: Seq<Seq<char>>, name: Seq<char>)
    requires
        node_at(project, path) is Some,
    ensures
        node_at(project, path.push(name)) == (if (node_at(project, path)->0).tree.contains_key(
            name,
        ) {
            Some((node_at(project, path)->0).tree[name])
        } else {
            None
        }),
    decreases path.len(),
{
    let longer = path.push(name);
    if path.len() > 0 {
        assert(longer.skip(1) =~= path.skip(1).push(name));
        lemma_node_below(project.tree[path[0]], path.skip(1), name);
    } else {
        assert(longer[0] == name);
        reveal_with_fuel(node_at, 2);
    }
}

/// A node that got another name and then its old one back is where it was.
pub proof fn renamed_node_can_be_renamed_back(node: NodeView, from: Seq<char>, to: Seq<char>)
    requires
        node.tree.contains_key(from),
        from == to || !node.tree.contains_key(to),
    ensures
        renamed_child(node, from, to).tree.contains_key(to),
        renamed_child(node, from, to).tree[to] == node.tree[from],
        from != to ==> !renamed_child(node, from, to).tree.contains_key(from),
        renamed_child(renamed_child(node, from, to), to, from) == node,
{
    assert(renamed_child(renamed_child(node, from, to), to, from).tree =~= node.tree);
}

/// Properties that a client sends mean the same however often they are read, and never hold the
/// mark.
pub proof fn validated_properties_stay(properties: Map<Seq<char>, Variant>)
    ensures
        validated(validated(properties)) == validated(properties),
        !validated(properties).contains_key(EMPTY_MARK@),
{
}

/// A project file gets each property of an instance, and no other.
pub proof fn serialized_properties_keep_names(
    class: Seq<char>,
    properties: Map<Seq<char>, Variant>,
)
    ensures
        serialized(class, properties).dom() == properties.dom(),
{
    assert(serialized(class, properties).dom() =~= properties.dom());
}

/// Properties that are put together can be serialized together or apart. Where both have a
/// property, the second one's counts.
pub proof fn serialized_properties_can_be_joined(
    class: Seq<char>,
    first: Map<Seq<char>, Variant>,
    second: Map<Seq<char>, Variant>,
)
    ensures
        serialized(class, first.union_prefer_right(second)) == serialized(
            class,
            first,
        ).union_prefer_right(serialized(class, second)),
{
    assert(serialized(class, first.union_prefer_right(second)) =~= serialized(
        class,
        first,
    ).union_prefer_right(serialized(class, second)));
}

/// The answers so far lead to the same place when there is one more.
pub(crate) proof fn lemma_one_answer_more(
    path: Seq<char>,
    name: Seq<char>,
    class: Seq<char>,
    properties: Map<Seq<char>, Variant>,
    meta: MetaView,
    answers: Seq<ReplyView>,
    at: int,
    reply: ReplyView,
)
    requires
        0 <= at <= answers.len(),
        revising(path, name, class, properties, meta, answers, at) is Done,
    ensures
        revising(path, name, class, properties, meta, answers.push(reply), at) == revising(
            path,
            name,
            class,
            properties,
            meta,
            answers,
            at,
        ),
        revising(path, name, class, properties, meta, answers, at)->Done_0.used <= answers.len(),
{
}

/// When an instance that is a node of a project gets another name, the project that is saved has
/// the node where the instance's new source says.
pub proof fn renamed_instance_is_found(
    instance: InstanceView,
    own: Seq<char>,
    path: Seq<char>,
    node: NodeView,
    node_path: Seq<Seq<char>>,
    new: Seq<char>,
    properties: Option<Map<Seq<char>, Variant>>,
    answers: Seq<ReplyView>,
    saved: NodeView,
)
    requires
        instance.meta.source.inner == KindView::Project(own, path, node, node_path),
        updating(instance, Some(new), properties, answers) == FlowView::<EndView>::Ask(
            RequestView::Save { path, project: saved },
        ),
    ensures
        match updating(instance, Some(new), properties, answers.push(ReplyView::Done)) {
            FlowView::Done(end) => {
                &&& end.result is Ok
                &&& end.change.name == Some(new)
                &&& end.change.meta matches Some(meta) && match meta.source.inner {
                    KindView::Project(name, file, found, way) => name == new && file == path
                        && node_at(saved, way) == Some(found),
                    _ => false,
                }
            },
            _ => false,
        },
{
    let more = answers.push(ReplyView::Done);
    let project = answers[0]->Project_0;
    assert(more[0] == answers[0]);
    let above = parent_path(node_path);
    match properties {
        None => {
            lemma_renamed(project, above, own, new);
        },
        Some(given) => {
            let properties = validated(given);
            let found = node_at(project, node_path)->0;
            match node.path {
                Some(custom) => {
                    lemma_one_answer_more(
                        custom_place(path, custom),
                        instance.name,
                        instance.class,
                        properties,
                        instance.meta,
                        answers,
                        1,
                        ReplyView::Done,
                    );
                    lemma_renamed(
                        with_node_at(project, node_path, cleared(found)),
                        above,
                        own,
                        new,
                    );
                },
                None => {
                    lemma_renamed(
                        with_node_at(project, node_path, rewritten(found, own, properties)),
                        above,
                        own,
                        new,
                    );
                },
            }
        },
    }
}

proof fn lemma_renamed(
    project: NodeView,
    above: Seq<Seq<char>>,
    own: Seq<char>,
    new: Seq<char>,
)
    ensures
        has_node(project, above, own) ==> node_at(
            with_node_at(project, above, renamed_child(node_at(project, above)->0, own, new)),
            above.push(new),
        ) == Some((node_at(project, above)->0).tree[own]),
{
    if has_node(project, above, own) {
        let changed = renamed_child(node_at(project, above)->0, own, new);
        replaced_node_is_found(project, above, changed);
        lemma_node_below(with_node_at(project, above, changed), above, new);
    }
}

/// The properties of an instance that is a node of a project, and is not kept elsewhere, are in
/// the project that is saved, at the instance's node, for the node's class.
pub proof fn updated_properties_are_saved(
    instance: InstanceView,
    own: Seq<char>,
    path: Seq<char>,
    node: NodeView,
    node_path: Seq<Seq<char>>,
    properties: Map<Seq<char>, Variant>,
    answers: Seq<ReplyView>,
    saved: NodeView,
)
    requires
        instance.meta.source.inner == KindView::Project(own, path, node, node_path),
        node.path is None,
        updating(instance, None, Some(properties), answers) == FlowView::<EndView>::Ask(
            RequestView::Save { path, project: saved },
        ),
    ensures
        node_at(saved, node_path) matches Some(found) && found.properties == serialized(
            match found.class_name {
                Some(class) => class,
                None => own,
            },
            validated(properties),
        ),
{
    let project = answers[0]->Project_0;
    let found = node_at(project, node_path)->0;
    replaced_node_is_found(
        project,
        node_path,
        rewritten(found, own, validated(properties)),
    );
}

/// The project that is saved when an instance is removed no longer has its node.
pub proof fn removed_node_is_gone(
    id: Ref,
    meta: MetaView,
    parent: Option<InstanceView>,
    own: Seq<char>,
    path: Seq<char>,
    node: NodeView,
    node_path: Seq<Seq<char>>,
    answers: Seq<ReplyView>,
    saved: NodeView,
)
    requires
        meta.source.inner == KindView::Project(own, path, node, node_path),
        removing(id, meta, parent, answers) == FlowView::<FinishView>::Ask(
            RequestView::Save { path, project: saved },
        ),
    ensures
        !has_node(saved, parent_path(node_path), own),
{
    let project = answers[0]->Project_0;
    let above = parent_path(node_path);
    lemma_removal_saves(id, meta, parent, own, path, node, node_path, answers, saved);
    let old_parent = node_at(project, above)->0;
    replaced_node_is_found(
        project,
        above,
        NodeView { tree: old_parent.tree.remove(own), ..old_parent },
    );
}

proof fn lemma_removal_saves(
    id: Ref,
    meta: MetaView,
    parent: Option<InstanceView>,
    own: Seq<char>,
    path: Seq<char>,
    node: NodeView,
    node_path: Seq<Seq<char>>,
    answers: Seq<ReplyView>,
    saved: NodeView,
)
    requires
        meta.source.inner == KindView::Project(own, path, node, node_path),
        removing(id, meta, parent, answers) == FlowView::<FinishView>::Ask(
            RequestView::Save { path, project: saved },
        ),
    ensures
        answers.len() > 0,
        answers[0] is Project,
        has_node(answers[0]->Project_0, parent_path(node_path), own),
        saved == without_node(answers[0]->Project_0, parent_path(node_path), own),
{
    lemma_disposing(meta.source.relevants, answers, 1);
}

} // verus!
