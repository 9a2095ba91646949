//! Laws of removals.
use crate::exchange::{
    refusal, ErrorView, FlowView, NoticeView, ReplyView, RequestView, StepView,
};
use crate::meta::{first_data, first_file, EntryView, KindView, MetaView};
use crate::node::parent_path;
use crate::tree::{detached, is_below, is_way, without, InstanceView, TreeView};
use crate::write::removal::{
    disposing, has_node, leaving, parent_of, removal_resumed, removal_started, removal_step,
    removing, resourced, FinishView, RemovalView,
};
use rbx_dom_weak::types::Ref;
use vstd::prelude::*;

verus! {

/// Where a removal stands after replies; it stops listening once it has stopped.
pub open spec fn removal_run(
    step: StepView<RemovalView>,
    replies: Seq<ReplyView>,
) -> StepView<RemovalView>
    decreases replies.len(),
{
    match step {
        StepView::Ask(_, removal) if replies.len() > 0 => removal_run(
            removal_resumed(removal, replies[0]),
            replies.skip(1),
        ),
        _ => step,
    }
}

/// The tree that a removal holds or hands back.
pub open spec fn removal_tree(step: StepView<RemovalView>) -> TreeView {
    match step {
        StepView::Ask(_, removal) => removal.tree,
        StepView::Stop(_, tree, _) => tree,
    }
}

/// A run of a removal goes as far as some of the answers lead.
pub(crate) proof fn lemma_run(removal: RemovalView, replies: Seq<ReplyView>) -> (used: RemovalView)
    ensures
        removal_run(removal_step(removal), replies) == removal_step(used),
        used == (RemovalView { answers: used.answers, ..removal }),
        removal_step(used) is Ask ==> used.answers == removal.answers + replies,
    decreases replies.len(),
{
    match removal_step(removal) {
        StepView::Ask(_, same) if replies.len() > 0 => {
            let next = RemovalView { answers: removal.answers.push(replies[0]), ..removal };
            let used = lemma_run(next, replies.skip(1));
            assert(next.answers + replies.skip(1) =~= removal.answers + replies);
            used
        },
        _ => {
            if replies.len() == 0 {
                assert(removal.answers + replies =~= removal.answers);
            }
            removal
        },
    }
}

/// The two differ in their source at most.
pub open spec fn differs_in_source(before: InstanceView, after: InstanceView) -> bool {
    after == (InstanceView {
        meta: MetaView { source: after.meta.source, ..before.meta },
        ..before
    })
}

/// A removal that asks or has failed has removed no instance. At most the instance above has got
/// another source, and that only once the removal has stopped.
pub proof fn unfinished_removal_keeps_all(
    id: Ref,
    tree: TreeView,
    replies: Seq<ReplyView>,
)
    ensures
        ({
            let step = removal_run(removal_started(id, tree), replies);
            let after = removal_tree(step);
            &&& step is Ask ==> after == tree
            &&& step matches StepView::Stop(Err(_), _, _) ==> {
                &&& after.dom() == tree.dom()
                &&& forall|other: Ref|
                    tree.contains_key(other) ==> (#[trigger] after[other] == tree[other] || (
                    tree[id].parent == Some(other) && differs_in_source(
                        tree[other],
                        after[other],
                    )))
            }
        }),
{
    if tree.contains_key(id) {
        let used = lemma_run(RemovalView { tree, id, answers: Seq::empty() }, replies);
        let after = removal_tree(removal_step(used));
        match removal_step(used) {
            StepView::Stop(Err(_), _, _) => {
                assert(after.dom() =~= tree.dom());
            },
            _ => {},
        }
    }
}

/// Another source does not change what is below what.
proof fn lemma_same_children(a: TreeView, b: TreeView, top: Ref, id: Ref)
    requires
        a.dom() == b.dom(),
        forall|other: Ref|
            a.contains_key(other) ==> #[trigger] a[other].children == b[other].children,
    ensures
        is_below(a, top, id) == is_below(b, top, id),
{
    if is_below(a, top, id) {
        let way = choose|way: Seq<Ref>| #[trigger]
            is_way(a, way) && way[0] == top && way.last() == id;
        assert forall|i: int| 0 <= i < way.len() - 1 implies b.contains_key(#[trigger] way[i])
            && b[way[i]].children.contains(way[i + 1]) by {
            assert(a.contains_key(way[i]));
        }
        assert(is_way(b, way));
    }
    if is_below(b, top, id) {
        let way = choose|way: Seq<Ref>| #[trigger]
            is_way(b, way) && way[0] == top && way.last() == id;
        assert forall|i: int| 0 <= i < way.len() - 1 implies a.contains_key(#[trigger] way[i])
            && a[way[i]].children.contains(way[i + 1]) by {
            assert(b.contains_key(way[i]));
        }
        assert(is_way(a, way));
    }
}

/// A removal that succeeded took the instance and all that is below it from the tree, and nothing
/// else. Of what is left only the instance above has changed: it no longer lists the instance as a
/// child, and it may have got another source.
pub proof fn successful_removal_takes_what_is_below(
    id: Ref,
    tree: TreeView,
    replies: Seq<ReplyView>,
)
    requires
        tree.contains_key(id),
    ensures
        match removal_run(removal_started(id, tree), replies) {
            StepView::Stop(Ok(_), after, _) => {
                &&& !after.contains_key(id)
                &&& forall|other: Ref| #[trigger]
                    after.contains_key(other) <==> tree.contains_key(other) && !is_below(
                        detached(tree, id),
                        id,
                        other,
                    )
                &&& forall|other: Ref|
                    after.contains_key(other) && tree[id].parent != Some(other)
                        ==> #[trigger] after[other] == tree[other]
                &&& forall|other: Ref|
                    after.contains_key(other) && tree[id].parent == Some(other)
                        ==> differs_in_source(
                        InstanceView { children: without(tree[other].children, id), ..tree[other] },
                        #[trigger] after[other],
                    )
            },
            _ => true,
        },
{
    let used = lemma_run(RemovalView { tree, id, answers: Seq::empty() }, replies);
    match removing(id, tree[id].meta, parent_of(tree, id), used.answers) {
        FlowView::Done(finish) => {
            let moved = resourced(tree, id, finish.source);
            let a = detached(tree, id);
            let b = detached(moved, id);
            if finish.result is Ok {
                assert(moved.dom() =~= tree.dom());
                assert(moved[id].parent == tree[id].parent);
                assert(a.dom() =~= tree.dom());
                assert(b.dom() =~= tree.dom());
                assert forall|other: Ref| a.contains_key(other) implies #[trigger] a[other].children
                    == b[other].children by {}
                assert forall|other: Ref| is_below(a, id, other) == is_below(b, id, other) by {
                    lemma_same_children(a, b, id, other);
                }
                assert(is_way(b, seq![id]));
                assert(is_below(b, id, id)) by {
                    assert(seq![id][0] == id && seq![id].last() == id);
                }
            }
        },
        _ => {},
    }
}

/// An instance that is a node of a project is removed only once the project is known and has the
/// node: where the project cannot be loaded or lacks the node, the removal fails before it has
/// asked for anything else, and nothing changes, whether or not there is an instance above.
pub proof fn removal_without_a_node_touches_nothing(id: Ref, tree: TreeView, reply: ReplyView)
    requires
        tree.contains_key(id),
        tree[id].meta.source.inner matches KindView::Project(own, _, _, node_path) && !(
        reply matches ReplyView::Project(project) && has_node(
            project,
            parent_path(node_path),
            own,
        )),
    ensures
        removal_started(id, tree) matches StepView::Ask(RequestView::Load(_), removal)
            && removal_resumed(removal, reply) == StepView::<RemovalView>::Stop(
            Err(
                match reply {
                    ReplyView::Project(project) => ErrorView::NotInProject(id, project),
                    other => refusal(other),
                },
            ),
            tree,
            None,
        ),
{
    let answers = Seq::<ReplyView>::empty().push(reply);
    assert(answers[0] == reply);
}

/// The files of an instance are removed before the instance above is looked for: where one of them
/// cannot be removed, the removal fails with the reason, no project is saved and nothing changes in
/// the tree, whether or not there is an instance above.
pub proof fn failed_disposal_ends_the_removal(removal: RemovalView, error: ErrorView)
    requires
        ({
            let source = removal.tree[removal.id].meta.source;
            let answers = removal.answers;
            match source.inner {
                KindView::Path(_) => disposing(source.relevants, answers, 0) == FlowView::<
                    int,
                >::Fail(error),
                KindView::Project(own, _, node, node_path) => {
                    &&& node.path is Some
                    &&& answers.len() > 0
                    &&& answers[0] matches ReplyView::Project(project) && has_node(
                        project,
                        parent_path(node_path),
                        own,
                    )
                    &&& disposing(source.relevants, answers, 1) == FlowView::<int>::Fail(error)
                },
                KindView::Nowhere => false,
            }
        }),
    ensures
        removal_step(removal) == StepView::<RemovalView>::Stop(Err(error), removal.tree, None),
{
}

/// An instance that has files and no instance above it is never removed.
pub proof fn removal_needs_an_instance_above(id: Ref, tree: TreeView, replies: Seq<ReplyView>)
    requires
        tree.contains_key(id),
        parent_of(tree, id) is None,
        match tree[id].meta.source.inner {
            KindView::Path(_) => true,
            KindView::Project(_, _, node, _) => node.path is Some,
            KindView::Nowhere => false,
        },
    ensures
        ({
            let step = removal_run(removal_started(id, tree), replies);
            &&& removal_tree(step) == tree
            &&& step matches StepView::Stop(result, _, _) ==> result is Err
        }),
{
    let used = lemma_run(RemovalView { tree, id, answers: Seq::empty() }, replies);
}

/// What was removed is gone: a second removal of the same instance asks nothing and changes
/// nothing.
pub proof fn second_removal_changes_nothing(id: Ref, tree: TreeView, replies: Seq<ReplyView>)
    ensures
        removal_run(removal_started(id, tree), replies) matches StepView::Stop(Ok(_), after, _)
            ==> removal_started(id, after) == StepView::<RemovalView>::Stop(
            Ok(()),
            after,
            Some(NoticeView::NoInstance(id)),
        ),
{
    if tree.contains_key(id) {
        successful_removal_takes_what_is_below(id, tree, replies);
    }
}

/// The path is that of an entry that is no project file.
pub open spec fn is_own_file(entries: Seq<EntryView>, path: Seq<char>) -> bool {
    exists|i: int|
        0 <= i < entries.len() && !((#[trigger] entries[i]) is Project) && entries[i].path()
            == path
}

/// Removing files asks at most twice for each.
pub(crate) proof fn lemma_disposing(entries: Seq<EntryView>, answers: Seq<ReplyView>, at: int)
    ensures
        match disposing(entries, answers, at) {
            FlowView::Ask(request) => {
                &&& answers.len() < at + 2 * entries.len()
                &&& match request {
                    RequestView::Exists(path) => is_own_file(entries, path),
                    RequestView::Remove(path) => is_own_file(entries, path),
                    _ => false,
                }
            },
            FlowView::Done(used) => at <= used <= at + 2 * entries.len(),
            FlowView::Fail(_) => true,
        },
    decreases entries.len(),
{
    if entries.len() > 0 {
        let rest = entries.skip(1);
        lemma_disposing(rest, answers, at);
        lemma_disposing(rest, answers, at + 1);
        lemma_disposing(rest, answers, at + 2);
        assert forall|path: Seq<char>| is_own_file(rest, path) implies is_own_file(
            entries,
            path,
        ) by {
            let i = choose|i: int|
                0 <= i < rest.len() && !((#[trigger] rest[i]) is Project) && rest[i].path()
                    == path;
            assert(entries[i + 1] == rest[i]);
        }
        assert(!(entries[0] is Project) ==> is_own_file(entries, entries[0].path()));
    }
}

/// What a removal of an instance may ask: to look for and to remove the instance's own files, to
/// load and save the project that it is a node of, and to make the instance above a single file.
pub open spec fn removal_may_ask(
    meta: MetaView,
    parent: Option<InstanceView>,
    request: RequestView,
) -> bool {
    match request {
        RequestView::Exists(path) => is_own_file(meta.source.relevants, path),
        RequestView::Remove(path) => is_own_file(meta.source.relevants, path) || (
        parent matches Some(parent) && parent.children.len() == 1 && parent.meta.source.inner
            == KindView::Path(path)),
        RequestView::Rename(from, _) => parent matches Some(parent) && parent.children.len() == 1
            && (first_file(parent.meta.source.relevants) == Some(from) || first_data(
            parent.meta.source.relevants,
        ) == Some(from)),
        RequestView::Load(file) => meta.source.inner.is_in(file),
        RequestView::Save { path: file, project: _ } => meta.source.inner.is_in(file),
        RequestView::MatchesChild { .. } => true,
        RequestView::Locate { .. } => true,
        RequestView::LocateEach { .. } => true,
        _ => false,
    }
}

pub(crate) proof fn lemma_leaving(
    meta: MetaView,
    parent: Option<InstanceView>,
    answers: Seq<ReplyView>,
    at: int,
)
    ensures
        match leaving(parent, answers, at) {
            FlowView::Ask(request) => removal_may_ask(meta, parent, request) && answers.len() < at
                + 6,
            FlowView::Done(folded) => at <= folded.used <= at + 6 && (folded.source matches Some(
                source,
            ) ==> source.inner is Path),
            FlowView::Fail(_) => true,
        },
{
}

/// What a removal may come to.
pub(crate) open spec fn removal_is_sound(
    meta: MetaView,
    parent: Option<InstanceView>,
    answers: Seq<ReplyView>,
    flow: FlowView<FinishView>,
) -> bool {
    match flow {
        FlowView::Ask(request) => removal_may_ask(meta, parent, request) && answers.len() < 2
            * meta.source.relevants.len() + 8,
        FlowView::Done(finish) => finish.source matches Some(source) ==> source.inner is Path,
        FlowView::Fail(_) => true,
    }
}

pub(crate) proof fn lemma_removing(
    id: Ref,
    meta: MetaView,
    parent: Option<InstanceView>,
    answers: Seq<ReplyView>,
)
    ensures
        removal_is_sound(meta, parent, answers, removing(id, meta, parent, answers)),
{
    let entries = meta.source.relevants;
    match meta.source.inner {
        KindView::Path(_) => {
            lemma_disposing(entries, answers, 0);
            match disposing(entries, answers, 0) {
                FlowView::Done(used) => lemma_leaving(meta, parent, answers, used),
                _ => {},
            }
        },
        KindView::Project(_, _, _, _) => {
            lemma_disposing(entries, answers, 1);
            match disposing(entries, answers, 1) {
                FlowView::Done(used) => lemma_leaving(meta, parent, answers, used),
                _ => {},
            }
        },
        KindView::Nowhere => {},
    }
}

/// A removal writes no properties, removes and moves nothing but what belongs to the instance or
/// to the one above that it leaves without children, no project file among that, and saves no
/// project but the one that the instance is a node of.
pub proof fn removal_asks_only_what_it_may(id: Ref, tree: TreeView, replies: Seq<ReplyView>)
    requires
        tree.contains_key(id),
    ensures
        removal_run(removal_started(id, tree), replies) matches StepView::Ask(request, _)
            ==> removal_may_ask(tree[id].meta, parent_of(tree, id), request),
{
    let used = lemma_run(RemovalView { tree, id, answers: Seq::empty() }, replies);
    lemma_removing(id, tree[id].meta, parent_of(tree, id), used.answers);
}

/// A removal comes to an end: it asks at most twice for each file or folder of its instance, and
/// eight times more.
pub proof fn removal_ends(id: Ref, tree: TreeView, replies: Seq<ReplyView>)
    requires
        tree.contains_key(id),
        replies.len() >= 2 * tree[id].meta.source.relevants.len() + 8,
    ensures
        removal_run(removal_started(id, tree), replies) is Stop,
{
    let used = lemma_run(RemovalView { tree, id, answers: Seq::empty() }, replies);
    lemma_removing(id, tree[id].meta, parent_of(tree, id), used.answers);
}

} // verus!
