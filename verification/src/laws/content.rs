//! Laws of what an addition puts into the tree.
use crate::exchange::{FlowView, ReplyView, StepView};
use crate::laws::addition::{
    addition_run, fresh, ids, ids_of, lemma_ids_left, lemma_placing, lemma_resumed, lemma_started,
    under_way, waiting,
};
use crate::laws::tree::coherent;
use crate::meta::{KindView, MetaView, SyncRule};
use crate::properties::validated;
use crate::snapshot::SnapshotView;
use crate::tree::{inserted, InstanceView, TreeView};
use crate::write::addition::{
    addition_resumed, addition_started, jobs_below, project_meta, with_instances_for, AdditionView,
    StageView,
};
use crate::write::files::{placing, JobView, PlacedView};
use rbx_dom_weak::types::Ref;
use vstd::multiset::Multiset;
use vstd::prelude::*;

verus! {

/// The instance is what the snapshot says, a child of `parent`, under these rules.
pub open spec fn matching(
    instance: InstanceView,
    snapshot: SnapshotView,
    parent: Ref,
    context: Seq<SyncRule>,
) -> bool {
    &&& instance.name == snapshot.name
    &&& instance.class == snapshot.class
    &&& instance.properties == snapshot.properties
    &&& instance.parent == Some(parent)
    &&& instance.meta.context == context
    &&& instance.meta.keep_unknowns == snapshot.meta.keep_unknowns
}

/// The tree has the snapshot as a child of `parent`, and what is below the snapshot below it, or,
/// if `flat`, as children of `parent` too.
pub open spec fn added_as(
    tree: TreeView,
    snapshot: SnapshotView,
    parent: Ref,
    flat: bool,
    context: Seq<SyncRule>,
) -> bool
    decreases snapshot,
{
    &&& tree.contains_key(snapshot.id)
    &&& matching(tree[snapshot.id], snapshot, parent, context)
    &&& forall|i: int|
        0 <= i < snapshot.children.len() ==> added_as(
            tree,
            #[trigger] snapshot.children[i],
            if flat {
                parent
            } else {
                snapshot.id
            },
            flat,
            context,
        )
}

/// All instances are still there, and but for children and source still the same.
spec fn keeps(before: TreeView, after: TreeView) -> bool {
    forall|id: Ref| #[trigger]
        before.contains_key(id) ==> after.contains_key(id) && after[id] == (InstanceView {
            children: after[id].children,
            meta: MetaView { source: after[id].meta.source, ..before[id].meta },
            ..before[id]
        })
}

proof fn lemma_stays(
    before: TreeView,
    after: TreeView,
    snapshot: SnapshotView,
    parent: Ref,
    flat: bool,
    context: Seq<SyncRule>,
)
    requires
        keeps(before, after),
        added_as(before, snapshot, parent, flat, context),
    ensures
        added_as(after, snapshot, parent, flat, context),
    decreases snapshot,
{
    assert(before.contains_key(snapshot.id));
    assert forall|i: int| 0 <= i < snapshot.children.len() implies added_as(
        after,
        #[trigger] snapshot.children[i],
        if flat {
            parent
        } else {
            snapshot.id
        },
        flat,
        context,
    ) by {
        lemma_stays(
            before,
            after,
            snapshot.children[i],
            if flat {
                parent
            } else {
                snapshot.id
            },
            flat,
            context,
        );
    }
}

/// What instances that are added to a project are in the tree.
proof fn lemma_flat(
    tree: TreeView,
    parent: Ref,
    path: Seq<char>,
    node_path: Seq<Seq<char>>,
    list: Seq<SnapshotView>,
    context: Seq<SyncRule>,
)
    requires
        tree.contains_key(parent),
        fresh(tree, ids_of(list)),
    ensures
        ({
            let after = with_instances_for(tree, parent, path, node_path, list, context);
            &&& keeps(tree, after)
            &&& forall|id: Ref| #[trigger]
                after.contains_key(id) ==> tree.contains_key(id) || ids_of(list).count(id) > 0
            &&& forall|i: int|
                0 <= i < list.len() ==> added_as(after, #[trigger] list[i], parent, true, context)
        }),
    decreases list,
{
    if list.len() > 0 {
        let snapshot = list.last();
        let first = list.drop_last();
        let all = ids_of(list);
        let before = with_instances_for(tree, parent, path, node_path, first, context);
        let meta = project_meta(snapshot, path, node_path, context);
        let with = SnapshotView { meta, ..snapshot };
        let middle = inserted(before, with, parent);
        let after = with_instances_for(tree, parent, path, node_path, list, context);
        assert forall|id: Ref| #[trigger] ids_of(first).count(id) > 0 implies ids_of(first).count(
            id,
        ) == 1 && !tree.contains_key(id) by {
            assert(all.count(id) > 0);
        }
        lemma_flat(tree, parent, path, node_path, first, context);
        assert(all.count(snapshot.id) == 1);
        assert(!before.contains_key(snapshot.id));
        assert(before.contains_key(parent));
        assert forall|id: Ref| #[trigger] ids_of(snapshot.children).count(id) > 0 implies ids_of(
            snapshot.children,
        ).count(id) == 1 && !middle.contains_key(id) by {
            assert(all.count(id) == 1);
            assert(ids_of(first).count(id) == 0);
            assert(!before.contains_key(id));
        }
        lemma_flat(
            middle,
            parent,
            path,
            node_path.push(snapshot.name),
            snapshot.children,
            context,
        );
        assert(keeps(before, middle));
        assert(keeps(tree, after)) by {
            assert forall|id: Ref| #[trigger] tree.contains_key(id) implies after.contains_key(id)
                && after[id] == (InstanceView {
                children: after[id].children,
                meta: MetaView { source: after[id].meta.source, ..tree[id].meta },
                ..tree[id]
            }) by {
                assert(before.contains_key(id));
                assert(middle.contains_key(id));
            }
        }
        assert(keeps(before, after)) by {
            assert forall|id: Ref| #[trigger] before.contains_key(id) implies after.contains_key(id)
                && after[id] == (InstanceView {
                children: after[id].children,
                meta: MetaView { source: after[id].meta.source, ..before[id].meta },
                ..before[id]
            }) by {
                assert(middle.contains_key(id));
            }
        }
        assert forall|i: int| 0 <= i < list.len() implies added_as(
            after,
            #[trigger] list[i],
            parent,
            true,
            context,
        ) by {
            if i < first.len() {
                assert(first[i] == list[i]);
                lemma_stays(before, after, list[i], parent, true, context);
            } else {
                assert(list[i] == snapshot);
                assert(middle.contains_key(snapshot.id));
                assert(matching(middle[snapshot.id], snapshot, parent, context));
            }
        }
        assert forall|id: Ref| #[trigger] after.contains_key(id) implies tree.contains_key(id)
            || all.count(id) > 0 by {
            if middle.contains_key(id) && id != snapshot.id {
                assert(before.contains_key(id));
            }
        }
    }
}

/// One of the jobs is to add this snapshot to this instance.
spec fn pending(jobs: Seq<JobView>, snapshot: SnapshotView, parent: Ref) -> bool {
    exists|k: int|
        0 <= k < jobs.len() && (#[trigger] jobs[k]).snapshot == snapshot && jobs[k].parent
            == parent
}

/// The tree has the snapshot and what is below it, but for what is still to be added.
spec fn added_but(
    tree: TreeView,
    snapshot: SnapshotView,
    parent: Ref,
    jobs: Seq<JobView>,
    context: Seq<SyncRule>,
) -> bool
    decreases snapshot,
{
    pending(jobs, snapshot, parent) || {
        &&& tree.contains_key(snapshot.id)
        &&& matching(tree[snapshot.id], snapshot, parent, context)
        &&& forall|i: int|
            0 <= i < snapshot.children.len() ==> added_but(
                tree,
                #[trigger] snapshot.children[i],
                snapshot.id,
                jobs,
                context,
            )
    }
}

/// When a job is done the tree has its snapshot, but for what is below that.
proof fn lemma_one_more(
    tree: TreeView,
    snapshot: SnapshotView,
    parent: Ref,
    jobs: Seq<JobView>,
    done: PlacedView,
    context: Seq<SyncRule>,
)
    requires
        jobs.len() > 0,
        tree.contains_key(jobs.last().parent),
        !tree.contains_key(jobs.last().snapshot.id),
        done.meta.context == context,
        done.meta.keep_unknowns == jobs.last().snapshot.meta.keep_unknowns,
        added_but(tree, snapshot, parent, jobs, context),
    ensures
        added_but(
            inserted(
                tree,
                SnapshotView { meta: done.meta, ..jobs.last().snapshot },
                jobs.last().parent,
            ),
            snapshot,
            parent,
            jobs.drop_last() + jobs_below(jobs.last().snapshot, done),
            context,
        ),
    decreases snapshot,
{
    let job = jobs.last();
    let below = jobs_below(job.snapshot, done);
    let rest = jobs.drop_last() + below;
    let after = inserted(tree, SnapshotView { meta: done.meta, ..job.snapshot }, job.parent);
    if pending(jobs, snapshot, parent) {
        let k = choose|k: int|
            0 <= k < jobs.len() && (#[trigger] jobs[k]).snapshot == snapshot && jobs[k].parent
                == parent;
        if k < jobs.len() - 1 {
            assert(rest[k] == jobs[k]);
        } else {
            assert(snapshot == job.snapshot);
            assert forall|i: int| 0 <= i < snapshot.children.len() implies added_but(
                after,
                #[trigger] snapshot.children[i],
                snapshot.id,
                rest,
                context,
            ) by {
                let j = snapshot.children.len() - 1 - i;
                assert(rest[jobs.len() - 1 + j] == below[j]);
                assert(below[j].snapshot == snapshot.children[i]);
                assert(pending(rest, snapshot.children[i], snapshot.id));
            }
        }
    } else {
        assert forall|i: int| 0 <= i < snapshot.children.len() implies added_but(
            after,
            #[trigger] snapshot.children[i],
            snapshot.id,
            rest,
            context,
        ) by {
            lemma_one_more(tree, snapshot.children[i], snapshot.id, jobs, done, context);
        }
    }
}

/// When nothing is left to be added the tree has the snapshot and all that is below it.
proof fn lemma_nothing_left(
    tree: TreeView,
    snapshot: SnapshotView,
    parent: Ref,
    context: Seq<SyncRule>,
)
    requires
        added_but(tree, snapshot, parent, Seq::empty(), context),
    ensures
        added_as(tree, snapshot, parent, false, context),
    decreases snapshot,
{
    assert forall|i: int| 0 <= i < snapshot.children.len() implies added_as(
        tree,
        #[trigger] snapshot.children[i],
        snapshot.id,
        false,
        context,
    ) by {
        lemma_nothing_left(tree, snapshot.children[i], snapshot.id, context);
    }
}

/// What an addition has put into the tree so far.
spec fn faithful(
    start: TreeView,
    parent: Ref,
    given: SnapshotView,
    addition: AdditionView,
) -> bool {
    let context = start[parent].meta.context;
    match addition.stage {
        StageView::Files { source, jobs, answers } => {
            &&& !is_flat(start[parent].meta)
            &&& added_but(addition.tree, given, parent, jobs, context)
            &&& forall|k: int|
                0 <= k < jobs.len() ==> (#[trigger] jobs[k]).meta.context == context
        },
        StageView::Load { snapshot } => is_flat(start[parent].meta) && snapshot == given,
        StageView::Save => is_flat(start[parent].meta) && added_as(
            addition.tree,
            given,
            parent,
            true,
            context,
        ),
    }
}

/// What is added to an instance goes to the nodes of a project.
pub open spec fn is_flat(meta: MetaView) -> bool {
    meta.source.inner matches KindView::Project(_, _, node, _) && node.path is None
}

proof fn lemma_faithful_step(
    start: TreeView,
    parent: Ref,
    new: Multiset<Ref>,
    given: SnapshotView,
    addition: AdditionView,
    reply: ReplyView,
)
    requires
        coherent(start),
        fresh(start, new),
        under_way(start, parent, new, addition),
        faithful(start, parent, given, addition),
    ensures
        match addition_resumed(addition, reply) {
            StepView::Ask(_, next) => faithful(start, parent, given, next),
            StepView::Stop(Ok(_), tree, _) => added_as(
                tree,
                given,
                parent,
                is_flat(start[parent].meta),
                start[parent].meta.context,
            ),
            StepView::Stop(Err(_), _, _) => true,
        },
{
    let context = start[parent].meta.context;
    match addition.stage {
        StageView::Files { source, jobs, answers } => {
            let told = answers.push(reply);
            let job = jobs.last();
            assert(jobs[jobs.len() - 1] == job);
            lemma_placing(job, told);
            match placing(job, told) {
                FlowView::Done(done) => {
                    let below = jobs_below(job.snapshot, done);
                    let rest = jobs.drop_last() + below;
                    let tree = inserted(
                        addition.tree,
                        SnapshotView { meta: done.meta, ..job.snapshot },
                        job.parent,
                    );
                    lemma_ids_left(jobs, done);
                    assert(waiting(addition.stage).count(job.snapshot.id) > 0);
                    assert(!addition.tree.contains_key(job.snapshot.id));
                    lemma_one_more(addition.tree, given, parent, jobs, done, context);
                    if rest.len() == 0 {
                        assert(rest =~= Seq::empty());
                        lemma_nothing_left(tree, given, parent, context);
                        match addition_resumed(addition, reply) {
                            StepView::Stop(_, last, _) => {
                                assert(tree.contains_key(parent));
                                assert(keeps(tree, last)) by {
                                    lemma_parent_known(start, parent, new, addition, tree);
                                }
                                lemma_stays(tree, last, given, parent, false, context);
                            },
                            _ => {},
                        }
                    } else {
                        assert forall|k: int| 0 <= k < rest.len() implies (
                        #[trigger] rest[k]).meta.context == context by {
                            if k < jobs.len() - 1 {
                                assert(rest[k] == jobs[k]);
                            } else {
                                assert(rest[k] == below[k - (jobs.len() - 1)]);
                            }
                        }
                    }
                },
                _ => {},
            }
        },
        StageView::Load { snapshot } => {
            match (addition.meta.source.inner, reply) {
                (KindView::Project(_, path, _, node_path), ReplyView::Project(_)) => {
                    let list = seq![snapshot];
                    assert(waiting(addition.stage) == ids_of(list));
                    lemma_flat(addition.tree, parent, path, node_path, list, context);
                    assert(list[0] == snapshot);
                },
                _ => {},
            }
        },
        StageView::Save => {},
    }
}

/// The instance that is added to keeps what is known of it beside its source.
proof fn lemma_parent_known(
    start: TreeView,
    parent: Ref,
    new: Multiset<Ref>,
    addition: AdditionView,
    tree: TreeView,
)
    requires
        fresh(start, new),
        under_way(start, parent, new, addition),
        tree.contains_key(parent),
        tree[parent].meta == addition.tree[parent].meta,
    ensures
        tree[parent].meta.context == addition.meta.context,
        tree[parent].meta.keep_unknowns == addition.meta.keep_unknowns,
{
    assert(new.count(parent) == 0) by {
        if new.count(parent) > 0 {
            assert(!start.contains_key(parent));
        }
    }
}

proof fn lemma_faithful_run(
    start: TreeView,
    parent: Ref,
    new: Multiset<Ref>,
    given: SnapshotView,
    addition: AdditionView,
    replies: Seq<ReplyView>,
)
    requires
        coherent(start),
        fresh(start, new),
        under_way(start, parent, new, addition),
        faithful(start, parent, given, addition),
        replies.len() > 0,
    ensures
        addition_run(
            addition_resumed(addition, replies[0]),
            replies.skip(1),
        ) matches StepView::Stop(Ok(_), tree, _) ==> added_as(
            tree,
            given,
            parent,
            is_flat(start[parent].meta),
            start[parent].meta.context,
        ),
    decreases replies.len(),
{
    lemma_resumed(start, parent, new, addition, replies[0]);
    lemma_faithful_step(start, parent, new, given, addition, replies[0]);
    match addition_resumed(addition, replies[0]) {
        StepView::Ask(_, next) if replies.len() > 1 => {
            lemma_faithful_run(start, parent, new, given, next, replies.skip(1));
        },
        _ => {},
    }
}

/// After an addition of instances with new identities that succeeded, the tree has each of them
/// with its name, class and properties, under the rules of the instance that was added to. One
/// that got files is a child of the instance that it was below; those that became nodes of a
/// project are all children of the instance that was added to.
pub proof fn successful_addition_is_faithful(
    snapshot: SnapshotView,
    parent: Ref,
    tree: TreeView,
    replies: Seq<ReplyView>,
)
    requires
        tree.contains_key(parent),
        !(tree[parent].meta.source.inner is Nowhere),
        coherent(tree),
        fresh(tree, ids(snapshot)),
    ensures
        addition_run(
            addition_started(snapshot, parent, tree),
            replies,
        ) matches StepView::Stop(Ok(_), after, _) ==> added_as(
            after,
            SnapshotView { properties: validated(snapshot.properties), ..snapshot },
            parent,
            is_flat(tree[parent].meta),
            tree[parent].meta.context,
        ),
{
    let given = SnapshotView { properties: validated(snapshot.properties), ..snapshot };
    lemma_started(snapshot, parent, tree);
    match addition_started(snapshot, parent, tree) {
        StepView::Ask(_, addition) => {
            match addition.stage {
                StageView::Files { source, jobs, answers } => {
                    assert(jobs[0].snapshot == given);
                    assert(pending(jobs, given, parent));
                },
                _ => {},
            }
            if replies.len() > 0 {
                lemma_faithful_run(tree, parent, ids(snapshot), given, addition, replies);
            }
        },
        _ => {},
    }
}

} // verus!
