//! Laws of additions.
use crate::exchange::{FlowView, NoticeView, ReplyView, RequestView, StepView};
use crate::laws::tree::{coherent, insertion_keeps_coherence, lemma_same_links, placed};
use crate::meta::{first_data, KindView, MetaView, SourceView, SyncRule};
use crate::path::joined;
use crate::properties::{validated, EMPTY_MARK};
use crate::snapshot::SnapshotView;
use crate::tree::{inserted, InstanceView, TreeView};
use crate::write::addition::{
    added_to, addition_resumed, addition_started, job_done, jobs_below, project_meta,
    with_instances_for, AdditionView, StageView,
};
use crate::write::files::{housing, instance_writing, placing, JobView, PlacedView};
use crate::write::removal::{removal_started, RemovalView};
use crate::write::update::{update_started, UpdateView};
use rbx_dom_weak::types::{Ref, Variant};
use vstd::multiset::Multiset;
use vstd::prelude::*;

verus! {

/// Where an addition stands after replies; it stops listening once it has stopped.
pub open spec fn addition_run(
    step: StepView<AdditionView>,
    replies: Seq<ReplyView>,
) -> StepView<AdditionView>
    decreases replies.len(),
{
    match step {
        StepView::Ask(_, addition) if replies.len() > 0 => addition_run(
            addition_resumed(addition, replies[0]),
            replies.skip(1),
        ),
        _ => step,
    }
}

/// The tree that an addition holds or hands back.
pub open spec fn addition_tree(step: StepView<AdditionView>) -> TreeView {
    match step {
        StepView::Ask(_, addition) => addition.tree,
        StepView::Stop(_, tree, _) => tree,
    }
}

/// The identities of snapshots and of all that is below them.
pub open spec fn ids_of(list: Seq<SnapshotView>) -> Multiset<Ref>
    decreases list,
{
    if list.len() == 0 {
        Multiset::empty()
    } else {
        ids_of(list.drop_last()).insert(list.last().id).add(ids_of(list.last().children))
    }
}

/// The identities of a snapshot and of all that is below it.
pub open spec fn ids(snapshot: SnapshotView) -> Multiset<Ref> {
    ids_of(seq![snapshot])
}

pub(crate) proof fn lemma_ids(snapshot: SnapshotView)
    ensures
        ids(snapshot) == Multiset::empty().insert(snapshot.id).add(ids_of(snapshot.children)),
{
    let list = seq![snapshot];
    assert(list.drop_last().len() == 0);
    assert(ids_of(list.drop_last()) == Multiset::<Ref>::empty());
}

pub(crate) proof fn lemma_ids_joined(a: Seq<SnapshotView>, b: Seq<SnapshotView>)
    ensures
        ids_of(a + b) == ids_of(a).add(ids_of(b)),
    decreases b.len(),
{
    if b.len() == 0 {
        assert(a + b =~= a);
        assert(ids_of(a).add(ids_of(b)) =~= ids_of(a));
    } else {
        let all = a + b;
        assert(all.drop_last() =~= a + b.drop_last());
        assert(all.last() == b.last());
        lemma_ids_joined(a, b.drop_last());
        assert(ids_of(all) =~= ids_of(a).add(ids_of(b)));
    }
}

/// A list, the last first.
spec fn backwards(list: Seq<SnapshotView>) -> Seq<SnapshotView> {
    Seq::new(list.len(), |i: int| list[list.len() - 1 - i])
}

proof fn lemma_ids_backwards(list: Seq<SnapshotView>)
    ensures
        ids_of(backwards(list)) == ids_of(list),
    decreases list.len(),
{
    if list.len() == 0 {
        assert(backwards(list) =~= list);
    } else {
        let before = list.drop_last();
        assert(backwards(list) =~= seq![list.last()] + backwards(before));
        lemma_ids_backwards(before);
        lemma_ids_joined(seq![list.last()], backwards(before));
        lemma_ids(list.last());
        assert(ids_of(backwards(list)) =~= ids_of(list));
    }
}

/// The snapshots of jobs.
pub open spec fn snapshots(jobs: Seq<JobView>) -> Seq<SnapshotView> {
    jobs.map_values(|job: JobView| job.snapshot)
}

/// When a job is done its own identity is no longer among those that wait, and no other.
pub(crate) proof fn lemma_ids_left(jobs: Seq<JobView>, placed: PlacedView)
    requires
        jobs.len() > 0,
    ensures
        ids_of(snapshots(jobs)) == ids_of(
            snapshots(jobs.drop_last() + jobs_below(jobs.last().snapshot, placed)),
        ).insert(jobs.last().snapshot.id),
{
    let job = jobs.last();
    let below = jobs_below(job.snapshot, placed);
    let left = jobs.drop_last() + below;
    assert(snapshots(below) =~= backwards(job.snapshot.children));
    assert(snapshots(left) =~= snapshots(jobs.drop_last()) + snapshots(below));
    lemma_ids_joined(snapshots(jobs.drop_last()), snapshots(below));
    lemma_ids_backwards(job.snapshot.children);
    assert(snapshots(jobs).drop_last() =~= snapshots(jobs.drop_last()));
    assert(snapshots(jobs).last() == job.snapshot);
    assert(ids_of(snapshots(jobs)) =~= ids_of(snapshots(left)).insert(job.snapshot.id));
}

/// What a job may ask: about paths and rules, to make folders, to write files, and to move the
/// files of the instance that is added to.
pub open spec fn job_may_ask(job: JobView, request: RequestView) -> bool {
    match request {
        RequestView::IsFile(path) => path == job.path,
        RequestView::Rename(from, _) => from == job.path || first_data(job.meta.source.relevants)
            == Some(from),
        RequestView::Matches { .. } => true,
        RequestView::NameBy { .. } => true,
        RequestView::Locate { .. } => true,
        RequestView::LocateEach { .. } => true,
        RequestView::Middleware(_) => true,
        RequestView::WriteDir(_) => true,
        RequestView::Write { .. } => true,
        RequestView::WriteData { .. } => true,
        _ => false,
    }
}

proof fn lemma_housing(job: JobView, answers: Seq<ReplyView>)
    ensures
        match housing(job.path, job.meta, answers) {
            FlowView::Ask(request) => job_may_ask(job, request) && answers.len() < 8,
            FlowView::Done(house) => house.used <= 8 && (house.source == job.meta.source
                || house.source.inner is Path),
            FlowView::Fail(_) => true,
        },
{
}

proof fn lemma_writing(
    job: JobView,
    path: Seq<char>,
    answers: Seq<ReplyView>,
    at: int,
)
    ensures
        match instance_writing(path, job.snapshot, job.meta.context, answers, at) {
            FlowView::Ask(request) => job_may_ask(job, request) && answers.len() < at + 5,
            FlowView::Done(meta) => meta.source.inner is Path && meta.context == job.meta.context
                && meta.keep_unknowns == job.snapshot.meta.keep_unknowns,
            FlowView::Fail(_) => true,
        },
{
}

/// What a job may come to.
pub(crate) proof fn lemma_placing(job: JobView, answers: Seq<ReplyView>)
    ensures
        match placing(job, answers) {
            FlowView::Ask(request) => job_may_ask(job, request) && answers.len() < 13,
            FlowView::Done(placed) => {
                &&& placed.source == job.meta.source || placed.source.inner is Path
                &&& placed.meta.source.inner is Path
                &&& placed.meta.context == job.meta.context
                &&& placed.meta.keep_unknowns == job.snapshot.meta.keep_unknowns
            },
            FlowView::Fail(_) => true,
        },
{
    lemma_housing(job, answers);
    match housing(job.path, job.meta, answers) {
        FlowView::Done(house) => {
            lemma_writing(
                job,
                joined(house.path, job.snapshot.name),
                answers,
                house.used,
            );
        },
        _ => {},
    }
}

/// The instance after others were added to it: it has more children and maybe another source.
pub open spec fn added_below(before: InstanceView, after: InstanceView) -> bool {
    &&& before.children.is_prefix_of(after.children)
    &&& after == (InstanceView {
        children: after.children,
        meta: MetaView { source: after.meta.source, ..before.meta },
        ..before
    })
}

/// The tree has all instances that it had at the start, and others only from among the new ones.
/// Beside those only the one that was added to has changed.
pub open spec fn only_grown(
    start: TreeView,
    parent: Ref,
    new: Multiset<Ref>,
    tree: TreeView,
) -> bool {
    &&& forall|id: Ref| #[trigger]
        tree.contains_key(id) ==> start.contains_key(id) || new.count(id) > 0
    &&& forall|id: Ref| #[trigger] start.contains_key(id) ==> tree.contains_key(id)
    &&& forall|id: Ref|
        start.contains_key(id) && new.count(id) == 0 && id != parent ==> #[trigger] tree[id]
            == start[id]
    &&& new.count(parent) == 0 ==> added_below(start[parent], tree[parent])
}

/// The new identities differ from each other and from those in the tree.
pub open spec fn fresh(tree: TreeView, new: Multiset<Ref>) -> bool {
    forall|id: Ref| #[trigger]
        new.count(id) > 0 ==> new.count(id) == 1 && !tree.contains_key(id)
}

proof fn lemma_only_grown(
    start: TreeView,
    parent: Ref,
    new: Multiset<Ref>,
    tree: TreeView,
    snapshot: SnapshotView,
    under: Ref,
)
    requires
        only_grown(start, parent, new, tree),
        start.contains_key(parent),
        tree.contains_key(under),
        new.count(snapshot.id) > 0,
        under == parent || new.count(under) > 0,
    ensures
        only_grown(start, parent, new, inserted(tree, snapshot, under)),
{
    let after = inserted(tree, snapshot, under);
    assert forall|id: Ref| #[trigger] after.contains_key(id) implies start.contains_key(id)
        || new.count(id) > 0 by {
        if id != snapshot.id {
            assert(tree.contains_key(id));
        }
    }
    assert forall|id: Ref| #[trigger] start.contains_key(id) implies after.contains_key(id) by {
        assert(tree.contains_key(id));
    }
    assert forall|id: Ref|
        start.contains_key(id) && new.count(id) == 0 && id != parent implies #[trigger] after[id]
        == start[id] by {
        assert(tree[id] == start[id]);
    }
    if new.count(parent) == 0 {
        assert(start.contains_key(parent));
        assert(tree.contains_key(parent));
        if under == parent {
            assert(after[parent].children =~= tree[parent].children.push(snapshot.id));
        }
    }
}

/// What adding instances to a project does to the tree.
proof fn lemma_project_instances(
    start: TreeView,
    new: Multiset<Ref>,
    tree: TreeView,
    parent: Ref,
    path: Seq<char>,
    node_path: Seq<Seq<char>>,
    list: Seq<SnapshotView>,
    context: Seq<SyncRule>,
)
    requires
        start.contains_key(parent),
        only_grown(start, parent, new, tree),
        forall|id: Ref| #[trigger] ids_of(list).count(id) > 0 ==> new.count(id) > 0,
    ensures
        ({
            let after = with_instances_for(tree, parent, path, node_path, list, context);
            &&& only_grown(start, parent, new, after)
            &&& forall|id: Ref| #[trigger]
                after.contains_key(id) <==> tree.contains_key(id) || ids_of(list).count(id) > 0
            &&& placed(tree) ==> placed(after)
            &&& coherent(tree) && fresh(tree, ids_of(list)) ==> coherent(after)
        }),
    decreases list,
{
    if list.len() > 0 {
        let snapshot = list.last();
        let first = list.drop_last();
        let all = ids_of(list);
        assert forall|id: Ref| #[trigger] ids_of(first).count(id) > 0 implies new.count(id) > 0 by {
            assert(all.count(id) > 0);
        }
        assert forall|id: Ref| #[trigger]
            ids_of(snapshot.children).count(id) > 0 implies new.count(id) > 0 by {
            assert(all.count(id) > 0);
        }
        assert(all.count(snapshot.id) > 0);
        let before = with_instances_for(tree, parent, path, node_path, first, context);
        lemma_project_instances(start, new, tree, parent, path, node_path, first, context);
        assert(tree.contains_key(parent)) by {
            assert(start.contains_key(parent));
        }
        assert(before.contains_key(parent));
        let meta = project_meta(snapshot, path, node_path, context);
        let with = SnapshotView { meta, ..snapshot };
        let middle = inserted(before, with, parent);
        lemma_only_grown(start, parent, new, before, with, parent);
        lemma_project_instances(
            start,
            new,
            middle,
            parent,
            path,
            node_path.push(snapshot.name),
            snapshot.children,
            context,
        );
        let after = with_instances_for(tree, parent, path, node_path, list, context);
        assert forall|id: Ref| #[trigger]
            after.contains_key(id) <==> tree.contains_key(id) || all.count(id) > 0 by {
            assert(middle.contains_key(id) <==> before.contains_key(id) || id == snapshot.id);
        }
        if placed(tree) {
            assert forall|id: Ref| #[trigger] middle.contains_key(id) implies !(
            middle[id].meta.source.inner is Nowhere) by {
                if id != snapshot.id {
                    assert(before.contains_key(id));
                }
            }
        }
        if coherent(tree) && fresh(tree, all) {
            assert(fresh(tree, ids_of(first))) by {
                assert forall|id: Ref| #[trigger] ids_of(first).count(id) > 0 implies ids_of(
                    first,
                ).count(id) == 1 && !tree.contains_key(id) by {
                    assert(all.count(id) > 0);
                }
            }
            assert(ids_of(first).count(snapshot.id) == 0) by {
                assert(all.count(snapshot.id) == 1);
            }
            assert(!before.contains_key(snapshot.id));
            insertion_keeps_coherence(before, with, parent);
            assert(fresh(middle, ids_of(snapshot.children))) by {
                assert forall|id: Ref| #[trigger] ids_of(snapshot.children).count(id) > 0 implies
                    ids_of(snapshot.children).count(id) == 1 && !middle.contains_key(id) by {
                    assert(all.count(id) == 1);
                    assert(ids_of(first).count(id) == 0);
                    assert(!before.contains_key(id));
                }
            }
        }
    }
}

/// The identities that still wait to be added.
pub(crate) open spec fn waiting(stage: StageView) -> Multiset<Ref> {
    match stage {
        StageView::Files { source, jobs, answers } => ids_of(snapshots(jobs)),
        StageView::Load { snapshot } => ids(snapshot),
        StageView::Save => Multiset::empty(),
    }
}

/// What holds of an addition at any time.
pub(crate) open spec fn under_way(
    start: TreeView,
    parent: Ref,
    new: Multiset<Ref>,
    addition: AdditionView,
) -> bool {
    let tree = addition.tree;
    let left = waiting(addition.stage);
    &&& addition.ready()
    &&& start.contains_key(parent)
    &&& addition.parent == parent
    &&& addition.meta == start[parent].meta
    &&& only_grown(start, parent, new, tree)
    &&& forall|id: Ref| #[trigger] left.count(id) <= new.count(id)
    &&& forall|id: Ref| #[trigger]
        new.count(id) > 0 ==> tree.contains_key(id) || left.count(id) > 0
    &&& match addition.stage {
        StageView::Files { source, jobs, answers } => {
            &&& answers.len() < 13
            &&& forall|i: int|
                0 <= i < jobs.len() ==> (#[trigger] jobs[i]).parent == parent || new.count(
                    jobs[i].parent,
                ) > 0
            &&& placed(start) ==> forall|i: int|
                0 <= i < jobs.len() ==> !((#[trigger] jobs[i]).meta.source.inner is Nowhere)
            &&& placed(start) ==> (source matches Some(source) ==> !(source.inner is Nowhere))
        },
        _ => true,
    }
    &&& placed(start) ==> placed(tree)
    &&& coherent(start) && fresh(start, new) ==> coherent(tree) && fresh(tree, left)
}

/// What an addition may ask.
pub open spec fn addition_may_ask(meta: MetaView, request: RequestView) -> bool {
    match request {
        RequestView::Load(file) => meta.source.inner.is_in(file),
        RequestView::Save { path: file, project: _ } => meta.source.inner.is_in(file),
        RequestView::Remove(_) => false,
        RequestView::Exists(_) => false,
        RequestView::IsDir(_) => false,
        RequestView::MatchesChild { .. } => false,
        _ => true,
    }
}

/// What holds of an addition at any step.
pub(crate) open spec fn sound(
    start: TreeView,
    parent: Ref,
    new: Multiset<Ref>,
    step: StepView<AdditionView>,
) -> bool {
    match step {
        StepView::Ask(request, addition) => under_way(start, parent, new, addition)
            && addition_may_ask(start[parent].meta, request),
        StepView::Stop(result, tree, _) => {
            &&& only_grown(start, parent, new, tree)
            &&& result is Ok ==> forall|id: Ref| #[trigger]
                new.count(id) > 0 ==> tree.contains_key(id)
            &&& placed(start) ==> placed(tree)
            &&& coherent(start) && fresh(start, new) ==> coherent(tree)
        },
    }
}

/// The tree after a new instance, when a job is done.
proof fn lemma_job_tree(
    start: TreeView,
    parent: Ref,
    new: Multiset<Ref>,
    addition: AdditionView,
    source: Option<SourceView>,
    jobs: Seq<JobView>,
    answers: Seq<ReplyView>,
    done: PlacedView,
)
    requires
        under_way(start, parent, new, addition),
        addition.stage == (StageView::Files { source, jobs, answers }),
        done.meta.source.inner is Path,
    ensures
        ({
            let job = jobs.last();
            let tree = inserted(
                addition.tree,
                SnapshotView { meta: done.meta, ..job.snapshot },
                job.parent,
            );
            let left = ids_of(
                snapshots(jobs.drop_last() + jobs_below(job.snapshot, done)),
            );
            &&& only_grown(start, parent, new, tree)
            &&& new.count(job.snapshot.id) > 0
            &&& forall|id: Ref| #[trigger] left.count(id) <= new.count(id)
            &&& forall|id: Ref| #[trigger]
                new.count(id) > 0 ==> tree.contains_key(id) || left.count(id) > 0
            &&& forall|id: Ref| #[trigger]
                tree.contains_key(id) <==> addition.tree.contains_key(id) || id
                    == job.snapshot.id
            &&& placed(start) ==> placed(tree)
            &&& coherent(start) && fresh(start, new) ==> coherent(tree) && fresh(tree, left)
        }),
{
    let before = addition.tree;
    let job = jobs.last();
    let id = job.snapshot.id;
    let with = SnapshotView { meta: done.meta, ..job.snapshot };
    let tree = inserted(before, with, job.parent);
    let were = ids_of(snapshots(jobs));
    let left = ids_of(snapshots(jobs.drop_last() + jobs_below(job.snapshot, done)));
    lemma_ids_left(jobs, done);
    assert(were == left.insert(id));
    assert(waiting(addition.stage) == were);
    assert(were.count(id) > 0);
    assert(were.count(id) <= new.count(id));
    assert(jobs[jobs.len() - 1] == job);
    assert(before.contains_key(job.parent));
    lemma_only_grown(start, parent, new, before, with, job.parent);
    assert forall|other: Ref| #[trigger] left.count(other) <= new.count(other) by {
        assert(were.count(other) <= new.count(other));
    }
    assert forall|other: Ref| #[trigger] new.count(other) > 0 implies tree.contains_key(other)
        || left.count(other) > 0 by {
        assert(before.contains_key(other) || were.count(other) > 0);
    }
    if placed(start) {
        assert forall|other: Ref| #[trigger] tree.contains_key(other) implies !(
        tree[other].meta.source.inner is Nowhere) by {
            if other != id {
                assert(before.contains_key(other));
            }
        }
    }
    if coherent(start) && fresh(start, new) {
        assert(were.count(id) == 1 && !before.contains_key(id));
        insertion_keeps_coherence(before, with, job.parent);
        assert forall|other: Ref| #[trigger] left.count(other) > 0 implies left.count(other) == 1
            && !tree.contains_key(other) by {
            assert(were.count(other) > 0);
        }
    }
}

proof fn lemma_job_done(
    start: TreeView,
    parent: Ref,
    new: Multiset<Ref>,
    addition: AdditionView,
    source: Option<SourceView>,
    jobs: Seq<JobView>,
    answers: Seq<ReplyView>,
    done: PlacedView,
)
    requires
        under_way(start, parent, new, addition),
        addition.stage == (StageView::Files { source, jobs, answers }),
        done.meta.source.inner is Path,
        done.source == jobs.last().meta.source || done.source.inner is Path,
    ensures
        sound(start, parent, new, job_done(addition, source, jobs, done)),
{
    let job = jobs.last();
    let tree = inserted(
        addition.tree,
        SnapshotView { meta: done.meta, ..job.snapshot },
        job.parent,
    );
    let below = jobs_below(job.snapshot, done);
    let rest = jobs.drop_last() + below;
    let own = match source {
        Some(source) => source,
        None => done.source,
    };
    assert(jobs[jobs.len() - 1] == job);
    lemma_job_tree(start, parent, new, addition, source, jobs, answers, done);
    assert(placed(start) ==> !(own.inner is Nowhere));
    if rest.len() == 0 {
        let last = tree.insert(
            parent,
            InstanceView { meta: added_to(addition.meta, own), ..tree[parent] },
        );
        assert(snapshots(rest).len() == 0);
        assert(ids_of(snapshots(rest)) == Multiset::<Ref>::empty());
        assert(tree.contains_key(parent));
        assert(last.dom() =~= tree.dom());
        assert(only_grown(start, parent, new, last)) by {
            assert forall|id: Ref| #[trigger] last.contains_key(id) implies start.contains_key(id)
                || new.count(id) > 0 by {
                assert(tree.contains_key(id));
            }
            assert forall|id: Ref| #[trigger] start.contains_key(id) implies last.contains_key(
                id,
            ) by {
                assert(tree.contains_key(id));
            }
            assert forall|id: Ref|
                start.contains_key(id) && new.count(id) == 0 && id
                    != parent implies #[trigger] last[id] == start[id] by {
                assert(tree[id] == start[id]);
            }
        }
        if placed(start) {
            assert forall|id: Ref| #[trigger] last.contains_key(id) implies !(
            last[id].meta.source.inner is Nowhere) by {
                assert(tree.contains_key(id));
            }
        }
        if coherent(start) && fresh(start, new) {
            lemma_same_links(tree, last);
        }
    } else {
        assert forall|i: int| 0 <= i < rest.len() implies tree.contains_key(
            (#[trigger] rest[i]).parent,
        ) && (rest[i].parent == parent || new.count(rest[i].parent) > 0) && (placed(start) ==> !(
        rest[i].meta.source.inner is Nowhere)) by {
            if i < jobs.len() - 1 {
                assert(rest[i] == jobs[i]);
            } else {
                assert(rest[i] == below[i - (jobs.len() - 1)]);
            }
        }
    }
}

/// An addition stays sound with every reply.
pub(crate) proof fn lemma_resumed(
    start: TreeView,
    parent: Ref,
    new: Multiset<Ref>,
    addition: AdditionView,
    reply: ReplyView,
)
    requires
        under_way(start, parent, new, addition),
    ensures
        sound(start, parent, new, addition_resumed(addition, reply)),
{
    match addition.stage {
        StageView::Files { source, jobs, answers } => {
            let job = jobs.last();
            let told = answers.push(reply);
            assert(jobs[jobs.len() - 1] == job);
            lemma_placing(job, told);
            match placing(job, told) {
                FlowView::Done(done) => {
                    lemma_job_done(start, parent, new, addition, source, jobs, answers, done);
                },
                FlowView::Ask(request) => {
                    let next = AdditionView {
                        stage: StageView::Files { source, jobs, answers: told },
                        ..addition
                    };
                    assert(waiting(next.stage) == waiting(addition.stage));
                    assert(under_way(start, parent, new, next));
                    assert(addition_may_ask(start[parent].meta, request));
                },
                FlowView::Fail(_) => {},
            }
        },
        StageView::Load { snapshot } => {
            match (addition.meta.source.inner, reply) {
                (KindView::Project(_, path, _, node_path), ReplyView::Project(_)) => {
                    let list = seq![snapshot];
                    let left = waiting(addition.stage);
                    assert forall|id: Ref| #[trigger]
                        ids_of(list).count(id) > 0 implies new.count(id) > 0 by {
                        assert(left.count(id) <= new.count(id));
                    }
                    lemma_project_instances(
                        start,
                        new,
                        addition.tree,
                        parent,
                        path,
                        node_path,
                        list,
                        addition.meta.context,
                    );
                    let after = with_instances_for(
                        addition.tree,
                        parent,
                        path,
                        node_path,
                        list,
                        addition.meta.context,
                    );
                    assert(after.contains_key(parent));
                    assert forall|id: Ref| #[trigger] new.count(id) > 0 implies after.contains_key(
                        id,
                    ) by {
                        assert(addition.tree.contains_key(id) || left.count(id) > 0);
                    }
                },
                _ => {},
            }
        },
        StageView::Save => {},
    }
}

proof fn lemma_sound_run(
    start: TreeView,
    parent: Ref,
    new: Multiset<Ref>,
    step: StepView<AdditionView>,
    replies: Seq<ReplyView>,
)
    requires
        sound(start, parent, new, step),
    ensures
        sound(start, parent, new, addition_run(step, replies)),
    decreases replies.len(),
{
    match step {
        StepView::Ask(_, addition) if replies.len() > 0 => {
            lemma_resumed(start, parent, new, addition, replies[0]);
            lemma_sound_run(
                start,
                parent,
                new,
                addition_resumed(addition, replies[0]),
                replies.skip(1),
            );
        },
        _ => {},
    }
}

/// An addition is sound from the start.
pub(crate) proof fn lemma_started(snapshot: SnapshotView, parent: Ref, tree: TreeView)
    requires
        tree.contains_key(parent),
        !(tree[parent].meta.source.inner is Nowhere),
    ensures
        sound(tree, parent, ids(snapshot), addition_started(snapshot, parent, tree)),
{
    let new = ids(snapshot);
    let given = SnapshotView { properties: validated(snapshot.properties), ..snapshot };
    lemma_ids(snapshot);
    lemma_ids(given);
    assert(tree[parent].children.is_prefix_of(tree[parent].children));
    match addition_started(snapshot, parent, tree) {
        StepView::Ask(_, addition) => {
            match addition.stage {
                StageView::Files { source, jobs, answers } => {
                    assert(snapshots(jobs) =~= seq![given]);
                },
                _ => {},
            }
        },
        _ => {},
    }
}

/// How many replies an addition needs at most before it stops.
spec fn replies_left(addition: AdditionView) -> int {
    match addition.stage {
        StageView::Files { source, jobs, answers } => 13 * ids_of(snapshots(jobs)).len()
            - answers.len(),
        StageView::Load { snapshot } => 2,
        StageView::Save => 1,
    }
}

proof fn lemma_ends(
    start: TreeView,
    parent: Ref,
    new: Multiset<Ref>,
    addition: AdditionView,
    replies: Seq<ReplyView>,
)
    requires
        under_way(start, parent, new, addition),
        replies.len() >= replies_left(addition),
    ensures
        replies.len() > 0,
        addition_run(addition_resumed(addition, replies[0]), replies.skip(1)) is Stop,
    decreases replies.len(),
{
    match addition.stage {
        StageView::Files { source, jobs, answers } => {
            let job = jobs.last();
            assert(snapshots(jobs).last() == job.snapshot);
            assert(ids_of(snapshots(jobs)).len() >= 1);
        },
        _ => {},
    }
    assert(replies.len() > 0);
    lemma_resumed(start, parent, new, addition, replies[0]);
    match addition_resumed(addition, replies[0]) {
        StepView::Ask(_, next) => {
            match addition.stage {
                StageView::Files { source, jobs, answers } => {
                    let told = answers.push(replies[0]);
                    match placing(jobs.last(), told) {
                        FlowView::Done(done) => {
                            lemma_ids_left(jobs, done);
                            let rest = jobs.drop_last() + jobs_below(jobs.last().snapshot, done);
                            assert(ids_of(snapshots(jobs)).len() == ids_of(snapshots(rest)).len()
                                + 1);
                        },
                        _ => {},
                    }
                },
                _ => {},
            }
            assert(replies_left(next) <= replies_left(addition) - 1);
            lemma_ends(start, parent, new, next, replies.skip(1));
        },
        _ => {},
    }
}

/// Where the tree does not have the instance that is to be added to, updated or removed, nothing
/// is asked and nothing changes, and a notice says so.
pub proof fn unknown_instances_change_nothing(
    id: Ref,
    tree: TreeView,
    snapshot: SnapshotView,
    name: Option<Seq<char>>,
    properties: Option<Map<Seq<char>, Variant>>,
)
    requires
        !tree.contains_key(id),
    ensures
        addition_started(snapshot, id, tree) == StepView::<AdditionView>::Stop(
            Ok(()),
            tree,
            Some(NoticeView::NoInstance(id)),
        ),
        update_started(id, name, properties, tree) == StepView::<UpdateView>::Stop(
            Ok(()),
            tree,
            Some(NoticeView::NoInstance(id)),
        ),
        removal_started(id, tree) == StepView::<RemovalView>::Stop(
            Ok(()),
            tree,
            Some(NoticeView::NoInstance(id)),
        ),
{
}

/// An addition whose properties are marked as empty is one without properties.
pub proof fn marked_addition_has_no_properties(
    snapshot: SnapshotView,
    parent: Ref,
    tree: TreeView,
    replies: Seq<ReplyView>,
)
    requires
        snapshot.properties.contains_key(EMPTY_MARK@),
    ensures
        addition_run(addition_started(snapshot, parent, tree), replies) == addition_run(
            addition_started(
                SnapshotView { properties: Map::empty(), ..snapshot },
                parent,
                tree,
            ),
            replies,
        ),
{
    let none = Map::<Seq<char>, Variant>::empty();
    assert(validated(none) =~= none);
    let bare = SnapshotView { properties: none, ..snapshot };
    assert(SnapshotView { properties: validated(bare.properties), ..bare } == SnapshotView {
        properties: validated(snapshot.properties),
        ..snapshot
    });
}

/// An addition removes no instance and changes none but the one that is added to: that one gets
/// more children and maybe another source. This holds at every step and whatever comes of it.
pub proof fn addition_only_grows(
    snapshot: SnapshotView,
    parent: Ref,
    tree: TreeView,
    replies: Seq<ReplyView>,
)
    requires
        tree.contains_key(parent),
        !(tree[parent].meta.source.inner is Nowhere),
    ensures
        only_grown(
            tree,
            parent,
            ids(snapshot),
            addition_tree(addition_run(addition_started(snapshot, parent, tree), replies)),
        ),
{
    lemma_started(snapshot, parent, tree);
    lemma_sound_run(
        tree,
        parent,
        ids(snapshot),
        addition_started(snapshot, parent, tree),
        replies,
    );
}

/// After an addition that succeeded the new instance and all that is below it are in the tree.
pub proof fn successful_addition_adds_all(
    snapshot: SnapshotView,
    parent: Ref,
    tree: TreeView,
    replies: Seq<ReplyView>,
    id: Ref,
)
    requires
        tree.contains_key(parent),
        !(tree[parent].meta.source.inner is Nowhere),
        ids(snapshot).count(id) > 0,
    ensures
        addition_run(
            addition_started(snapshot, parent, tree),
            replies,
        ) matches StepView::Stop(Ok(_), after, _) ==> after.contains_key(id),
{
    lemma_started(snapshot, parent, tree);
    lemma_sound_run(
        tree,
        parent,
        ids(snapshot),
        addition_started(snapshot, parent, tree),
        replies,
    );
}

/// An addition of instances with new identities leaves the tree coherent, at every step and
/// whatever comes of it.
pub proof fn addition_keeps_coherence(
    snapshot: SnapshotView,
    parent: Ref,
    tree: TreeView,
    replies: Seq<ReplyView>,
)
    requires
        tree.contains_key(parent),
        !(tree[parent].meta.source.inner is Nowhere),
        coherent(tree),
        fresh(tree, ids(snapshot)),
    ensures
        coherent(
            addition_tree(addition_run(addition_started(snapshot, parent, tree), replies)),
        ),
{
    lemma_started(snapshot, parent, tree);
    lemma_sound_run(
        tree,
        parent,
        ids(snapshot),
        addition_started(snapshot, parent, tree),
        replies,
    );
}

/// After an addition every instance has a place, the new ones among them, at every step and
/// whatever comes of it.
pub proof fn addition_keeps_places(
    snapshot: SnapshotView,
    parent: Ref,
    tree: TreeView,
    replies: Seq<ReplyView>,
)
    requires
        tree.contains_key(parent),
        placed(tree),
    ensures
        placed(addition_tree(addition_run(addition_started(snapshot, parent, tree), replies))),
{
    lemma_started(snapshot, parent, tree);
    lemma_sound_run(
        tree,
        parent,
        ids(snapshot),
        addition_started(snapshot, parent, tree),
        replies,
    );
}

/// An addition never removes anything, and saves no project but the one that the instance that is
/// added to is a node of.
pub proof fn addition_asks_only_what_it_may(
    snapshot: SnapshotView,
    parent: Ref,
    tree: TreeView,
    replies: Seq<ReplyView>,
)
    requires
        tree.contains_key(parent),
        !(tree[parent].meta.source.inner is Nowhere),
    ensures
        addition_run(
            addition_started(snapshot, parent, tree),
            replies,
        ) matches StepView::Ask(request, _) ==> addition_may_ask(tree[parent].meta, request),
{
    lemma_started(snapshot, parent, tree);
    lemma_sound_run(
        tree,
        parent,
        ids(snapshot),
        addition_started(snapshot, parent, tree),
        replies,
    );
}

/// An addition comes to an end: it asks at most thirteen times for each new instance.
pub proof fn addition_ends(
    snapshot: SnapshotView,
    parent: Ref,
    tree: TreeView,
    replies: Seq<ReplyView>,
)
    requires
        tree.contains_key(parent),
        !(tree[parent].meta.source.inner is Nowhere),
        replies.len() >= 13 * ids(snapshot).len(),
    ensures
        addition_run(addition_started(snapshot, parent, tree), replies) is Stop,
{
    let given = SnapshotView { properties: validated(snapshot.properties), ..snapshot };
    lemma_ids(snapshot);
    lemma_ids(given);
    lemma_started(snapshot, parent, tree);
    match addition_started(snapshot, parent, tree) {
        StepView::Ask(_, addition) => {
            match addition.stage {
                StageView::Files { source, jobs, answers } => {
                    assert(snapshots(jobs) =~= seq![given]);
                },
                _ => {},
            }
            lemma_ends(tree, parent, ids(snapshot), addition, replies);
        },
        _ => {},
    }
}

} // verus!
