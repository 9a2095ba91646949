//! Adding instances.
use crate::exchange::{
    refusal, refuse, ErrorView, Flow, FlowView, Notice, NoticeView, Reply, ReplyView, Request,
    RequestView, Step, StepView, WriteError,
};
use crate::meta::{Context, KindView, Meta, MetaView, Source, SourceKind, SourceView, SyncRule};
use crate::node::{empty_node, node_at, with_node_at, NodePath, NodeView, Project, ProjectNode};
use crate::path::{custom_path, custom_place};
use crate::properties::{serialize_properties, serialized, validate_properties, validated};
use crate::snapshot::{AddedSnapshot, Snapshot, SnapshotView};
use crate::table::Table;
use crate::tree::{inserted, InstanceView, Tree, TreeView};
use crate::value::Properties;
use crate::write::files::{place_instance, placing, Job, JobView, Placed, PlacedView};
use rbx_dom_weak::types::Ref;
use vstd::prelude::*;

verus! {

/// The node of a project for a new instance, with these nodes below it.
pub open spec fn node_for(snapshot: SnapshotView, below: Map<Seq<char>, NodeView>) -> NodeView {
    NodeView {
        class_name: Some(snapshot.class),
        properties: serialized(snapshot.class, snapshot.properties),
        keep_unknowns: if snapshot.meta.keep_unknowns {
            Some(true)
        } else {
            None
        },
        tree: below,
        ..empty_node()
    }
}

/// Nodes by name, with the nodes for new instances and for all that is below those.
pub open spec fn with_nodes_for(
    nodes: Map<Seq<char>, NodeView>,
    list: Seq<SnapshotView>,
) -> Map<Seq<char>, NodeView>
    decreases list,
{
    if list.len() == 0 {
        nodes
    } else {
        let snapshot = list.last();
        with_nodes_for(nodes, list.drop_last()).insert(
            snapshot.name,
            node_for(snapshot, with_nodes_for(Map::empty(), snapshot.children)),
        )
    }
}

/// What is known of a new instance that is a node of a project.
pub open spec fn project_meta(
    snapshot: SnapshotView,
    path: Seq<char>,
    node_path: Seq<Seq<char>>,
    context: Seq<SyncRule>,
) -> MetaView {
    MetaView {
        source: SourceView::project(
            snapshot.name,
            path,
            node_for(snapshot, Map::empty()),
            node_path.push(snapshot.name),
        ),
        context,
        ..snapshot.meta
    }
}

/// The tree with new instances and all that is below those, every one of them a child of
/// `parent`.
pub open spec fn with_instances_for(
    tree: TreeView,
    parent: Ref,
    path: Seq<char>,
    node_path: Seq<Seq<char>>,
    list: Seq<SnapshotView>,
    context: Seq<SyncRule>,
) -> TreeView
    decreases list,
{
    if list.len() == 0 {
        tree
    } else {
        let snapshot = list.last();
        let before = with_instances_for(
            tree,
            parent,
            path,
            node_path,
            list.drop_last(),
            context,
        );
        let meta = project_meta(snapshot, path, node_path, context);
        with_instances_for(
            inserted(before, SnapshotView { meta, ..snapshot }, parent),
            parent,
            path,
            node_path.push(snapshot.name),
            snapshot.children,
            context,
        )
    }
}

proof fn lemma_parent_stays(
    tree: TreeView,
    parent: Ref,
    path: Seq<char>,
    node_path: Seq<Seq<char>>,
    list: Seq<SnapshotView>,
    context: Seq<SyncRule>,
)
    requires
        tree.contains_key(parent),
    ensures
        with_instances_for(tree, parent, path, node_path, list, context).contains_key(parent),
    decreases list,
{
    if list.len() > 0 {
        let snapshot = list.last();
        lemma_parent_stays(tree, parent, path, node_path, list.drop_last(), context);
        let before = with_instances_for(
            tree,
            parent,
            path,
            node_path,
            list.drop_last(),
            context,
        );
        let meta = project_meta(snapshot, path, node_path, context);
        lemma_parent_stays(
            inserted(before, SnapshotView { meta, ..snapshot }, parent),
            parent,
            path,
            node_path.push(snapshot.name),
            snapshot.children,
            context,
        );
    }
}

/// What one new instance adds.
proof fn lemma_one(
    nodes: Map<Seq<char>, NodeView>,
    tree: TreeView,
    parent: Ref,
    path: Seq<char>,
    node_path: Seq<Seq<char>>,
    snapshot: SnapshotView,
    context: Seq<SyncRule>,
)
    ensures
        with_nodes_for(nodes, seq![snapshot]) == nodes.insert(
            snapshot.name,
            node_for(snapshot, with_nodes_for(Map::empty(), snapshot.children)),
        ),
        with_instances_for(tree, parent, path, node_path, seq![snapshot], context)
            == with_instances_for(
            inserted(
                tree,
                SnapshotView {
                    meta: project_meta(snapshot, path, node_path, context),
                    ..snapshot
                },
                parent,
            ),
            parent,
            path,
            node_path.push(snapshot.name),
            snapshot.children,
            context,
        ),
{
    let list = seq![snapshot];
    assert(list.drop_last().len() == 0);
    assert(list.last() == snapshot);
    assert(with_nodes_for(nodes, list.drop_last()) == nodes);
    assert(with_instances_for(tree, parent, path, node_path, list.drop_last(), context) == tree);
}

/// Adds a new instance, and all that is below it, to a project and to the tree.
fn add_project_instances(
    parent: Ref,
    path: &String,
    node_path: &NodePath,
    snapshot: &Snapshot,
    parent_node: &mut ProjectNode,
    context: &Context,
    tree: &mut Tree,
)
    requires
        old(tree).deep_view().contains_key(parent),
    ensures
        final(parent_node).deep_view() == (NodeView {
            tree: with_nodes_for(old(parent_node).deep_view().tree, seq![snapshot.deep_view()]),
            ..old(parent_node).deep_view()
        }),
        final(tree).deep_view() == with_instances_for(
            old(tree).deep_view(),
            parent,
            path@,
            node_path.deep_view(),
            seq![snapshot.deep_view()],
            context.deep_view(),
        ),
    decreases snapshot,
{
    let ghost all = snapshot.deep_view();
    let ghost tree_before = tree.deep_view();
    let ghost nodes_before = parent_node.deep_view();
    let ghost way = node_path.deep_view();
    let mut node: ProjectNode = ProjectNode::new(
        Some(snapshot.class.clone()),
        None,
        serialize_properties(snapshot.class.as_str(), snapshot.properties.clone()),
        None,
        Vec::new(),
        if snapshot.meta.keep_unknowns {
            Some(true)
        } else {
            None
        },
    );
    assert(node.deep_view() =~= node_for(all, Map::empty()));
    let node_path: NodePath = node_path.join(snapshot.name.as_str());
    let source: Source = Source::project(
        snapshot.name.as_str(),
        path.as_str(),
        node.clone(),
        node_path.clone(),
    );
    let meta: Meta = snapshot.meta.clone().with_context(context).with_source(source);
    tree.insert_instance_with_ref(snapshot, meta, parent);
    let ghost grown = tree.deep_view();
    let mut i: usize = 0;
    assert(all.children.take(0) =~= Seq::empty());
    while i < snapshot.children.len()
        invariant
            i <= snapshot.children@.len(),
            all == snapshot.deep_view(),
            grown.contains_key(parent),
            node.deep_view() == node_for(
                all,
                with_nodes_for(Map::empty(), all.children.take(i as int)),
            ),
            tree.deep_view() == with_instances_for(
                grown,
                parent,
                path@,
                node_path.deep_view(),
                all.children.take(i as int),
                context.deep_view(),
            ),
        decreases snapshot.children@.len() - i,
    {
        assert(decreases_to!(snapshot => snapshot.children@[i as int]));
        let ghost list = all.children.take(i as int);
        let ghost child = snapshot.children@[i as int].deep_view();
        proof {
            lemma_parent_stays(
                grown,
                parent,
                path@,
                node_path.deep_view(),
                list,
                context.deep_view(),
            );
            assert(all.children[i as int] == child);
            assert(all.children.take(i + 1).drop_last() =~= list);
            assert(all.children.take(i + 1).last() == child);
            lemma_one(
                node.deep_view().tree,
                tree.deep_view(),
                parent,
                path@,
                node_path.deep_view(),
                child,
                context.deep_view(),
            );
        }
        add_project_instances(
            parent,
            path,
            &node_path,
            &snapshot.children[i],
            &mut node,
            context,
            tree,
        );
        i = i + 1;
    }
    parent_node.insert_child(snapshot.name.clone(), node);
    proof {
        assert(all.children.take(i as int) =~= all.children);
        lemma_one(nodes_before.tree, tree_before, parent, path@, way, all, context.deep_view());
    }
}

/// What an addition waits for.
enum Stage {
    /// The answers for the last of the jobs. The source is that of the instance that is added to,
    /// once the first job is done.
    Files { source: Option<Source>, jobs: Vec<Job>, answers: Vec<Reply> },
    /// The project that the new instance goes to.
    Load { snapshot: Snapshot },
    /// That the project is saved.
    Save,
}

/// What an addition waits for.
pub enum StageView {
    /// The answers for the last of the jobs. The source is that of the instance that is added to,
    /// once the first job is done.
    Files { source: Option<SourceView>, jobs: Seq<JobView>, answers: Seq<ReplyView> },
    /// The project that the new instance goes to.
    Load { snapshot: SnapshotView },
    /// That the project is saved.
    Save,
}

impl DeepView for Stage {
    type V = StageView;

    closed spec fn deep_view(&self) -> StageView {
        match *self {
            Stage::Files { source, jobs, answers } => StageView::Files {
                source: source.deep_view(),
                jobs: jobs.deep_view(),
                answers: answers.deep_view(),
            },
            Stage::Load { snapshot } => StageView::Load { snapshot: snapshot.deep_view() },
            Stage::Save => StageView::Save,
        }
    }
}

/// An addition under way. It holds the tree until it stops.
pub struct Addition {
    tree: Tree,
    parent: Ref,
    meta: Meta,
    stage: Stage,
}

/// What an [`Addition`] is: the tree so far, the instance that is added to, what was known of it at
/// the start, and what is waited for.
pub struct AdditionView {
    pub tree: TreeView,
    pub parent: Ref,
    pub meta: MetaView,
    pub stage: StageView,
}

impl DeepView for Addition {
    type V = AdditionView;

    closed spec fn deep_view(&self) -> AdditionView {
        AdditionView {
            tree: self.tree.deep_view(),
            parent: self.parent,
            meta: self.meta.deep_view(),
            stage: self.stage.deep_view(),
        }
    }
}

impl AdditionView {
    /// Every instance that something is still to be added to is in the tree.
    pub open spec fn ready(self) -> bool {
        &&& self.tree.contains_key(self.parent)
        &&& match self.stage {
            StageView::Files { source, jobs, answers } => jobs.len() > 0 && forall|i: int|
                0 <= i < jobs.len() ==> self.tree.contains_key((#[trigger] jobs[i]).parent),
            StageView::Load { snapshot } => self.meta.source.inner is Project,
            StageView::Save => true,
        }
    }
}

/// The start of an addition that goes to files beside `path`.
pub open spec fn files_started(
    tree: TreeView,
    parent: Ref,
    meta: MetaView,
    snapshot: SnapshotView,
    path: Seq<char>,
) -> StepView<AdditionView> {
    StepView::Ask(
        RequestView::IsFile(path),
        AdditionView {
            tree,
            parent,
            meta,
            stage: StageView::Files {
                source: None,
                jobs: seq![JobView { parent, path, meta, snapshot }],
                answers: Seq::empty(),
            },
        },
    )
}

/// The start of an addition.
pub open spec fn addition_started(
    snapshot: SnapshotView,
    parent: Ref,
    tree: TreeView,
) -> StepView<AdditionView> {
    if !tree.contains_key(parent) {
        StepView::Stop(Ok(()), tree, Some(NoticeView::NoInstance(parent)))
    } else {
        let meta = tree[parent].meta;
        let snapshot = SnapshotView { properties: validated(snapshot.properties), ..snapshot };
        match meta.source.inner {
            KindView::Path(path) => files_started(tree, parent, meta, snapshot, path),
            KindView::Project(_, path, node, _) => match node.path {
                Some(custom) => files_started(
                    tree,
                    parent,
                    meta,
                    snapshot,
                    custom_place(path, custom),
                ),
                None => StepView::Ask(
                    RequestView::Load(path),
                    AdditionView { tree, parent, meta, stage: StageView::Load { snapshot } },
                ),
            },
            KindView::Nowhere => StepView::Stop(Ok(()), tree, None),
        }
    }
}

/// What is known of an instance once new ones were added to it and its own source is `source`. An
/// instance that is a node of a project stays one, with the entries of that source.
pub open spec fn added_to(meta: MetaView, source: SourceView) -> MetaView {
    MetaView {
        source: match meta.source.inner {
            KindView::Project(name, path, node, node_path) => SourceView::project(
                name,
                path,
                node,
                node_path,
            ).with_relevants(source.relevants),
            _ => source,
        },
        ..meta
    }
}

/// The jobs for what is below a new instance, the first of them last.
pub open spec fn jobs_below(snapshot: SnapshotView, placed: PlacedView) -> Seq<JobView> {
    Seq::new(
        snapshot.children.len(),
        |i: int|
            JobView {
                parent: snapshot.id,
                path: placed.path,
                meta: placed.meta,
                snapshot: snapshot.children[snapshot.children.len() - 1 - i],
            },
    )
}

/// The addition once the last of the jobs is done.
pub open spec fn job_done(
    addition: AdditionView,
    source: Option<SourceView>,
    jobs: Seq<JobView>,
    placed: PlacedView,
) -> StepView<AdditionView> {
    let job = jobs.last();
    let tree = inserted(
        addition.tree,
        SnapshotView { meta: placed.meta, ..job.snapshot },
        job.parent,
    );
    let source = match source {
        Some(source) => source,
        None => placed.source,
    };
    let jobs = jobs.drop_last() + jobs_below(job.snapshot, placed);
    if jobs.len() == 0 {
        StepView::Stop(
            Ok(()),
            tree.insert(
                addition.parent,
                InstanceView {
                    meta: added_to(addition.meta, source),
                    ..tree[addition.parent]
                },
            ),
            None,
        )
    } else {
        StepView::Ask(
            RequestView::IsFile(jobs.last().path),
            AdditionView {
                tree,
                stage: StageView::Files {
                    source: Some(source),
                    jobs,
                    answers: Seq::empty(),
                },
                ..addition
            },
        )
    }
}

/// The addition once the project is known.
pub open spec fn project_loaded(
    addition: AdditionView,
    snapshot: SnapshotView,
    project: NodeView,
) -> StepView<AdditionView> {
    match addition.meta.source.inner {
        KindView::Project(_, path, _, node_path) => match node_at(project, node_path) {
            None => StepView::Stop(Err(ErrorView::NoNode(node_path)), addition.tree, None),
            Some(node) => StepView::Ask(
                RequestView::Save {
                    path,
                    project: with_node_at(
                        project,
                        node_path,
                        NodeView { tree: with_nodes_for(node.tree, seq![snapshot]), ..node },
                    ),
                },
                AdditionView {
                    tree: with_instances_for(
                        addition.tree,
                        addition.parent,
                        path,
                        node_path,
                        seq![snapshot],
                        addition.meta.context,
                    ),
                    stage: StageView::Save,
                    ..addition
                },
            ),
        },
        _ => StepView::Stop(Ok(()), addition.tree, None),
    }
}

/// The addition after a reply.
pub open spec fn addition_resumed(addition: AdditionView, reply: ReplyView) -> StepView<
    AdditionView,
> {
    match addition.stage {
        StageView::Files { source, jobs, answers } => {
            let answers = answers.push(reply);
            match placing(jobs.last(), answers) {
                FlowView::Ask(request) => StepView::Ask(
                    request,
                    AdditionView {
                        stage: StageView::Files { source, jobs, answers },
                        ..addition
                    },
                ),
                FlowView::Fail(error) => StepView::Stop(Err(error), addition.tree, None),
                FlowView::Done(placed) => job_done(addition, source, jobs, placed),
            }
        },
        StageView::Load { snapshot } => match reply {
            ReplyView::Project(project) => project_loaded(addition, snapshot, project),
            other => StepView::Stop(Err(refusal(other)), addition.tree, None),
        },
        StageView::Save => match reply {
            ReplyView::Done => StepView::Stop(Ok(()), addition.tree, None),
            other => StepView::Stop(Err(refusal(other)), addition.tree, None),
        },
    }
}

/// Starts an addition that goes to files beside `path`.
fn start_files(
    tree: Tree,
    parent: Ref,
    meta: Meta,
    snapshot: Snapshot,
    path: String,
) -> (step: Step<Addition>)
    requires
        tree.deep_view().contains_key(parent),
    ensures
        step.deep_view() == files_started(
            tree.deep_view(),
            parent,
            meta.deep_view(),
            snapshot.deep_view(),
            path@,
        ),
        step matches Step::Ask(_, addition) ==> addition.deep_view().ready(),
{
    let request = Request::IsFile(path.clone());
    let mut jobs: Vec<Job> = Vec::new();
    jobs.push(Job { parent, path, meta: meta.clone(), snapshot });
    let answers: Vec<Reply> = Vec::new();
    proof {
        assert(jobs.deep_view() =~= seq![
            JobView {
                parent,
                path: path@,
                meta: meta.deep_view(),
                snapshot: snapshot.deep_view(),
            },
        ]);
        assert(answers.deep_view() =~= Seq::empty());
    }
    Step::Ask(
        request,
        Addition { tree, parent, meta, stage: Stage::Files { source: None, jobs, answers } },
    )
}

/// Starts to add an instance, and all that is below it, to an instance of the tree.
///
/// Where the tree has no such instance nothing happens but that a notice says so. The new instances
/// get files beside those of the instance, or nodes in the project that it is a node of.
pub fn apply_addition(snapshot: AddedSnapshot, tree: Tree) -> (step: Step<Addition>)
    requires
        tree.deep_view().contains_key(snapshot.parent) ==> !(tree.deep_view()[snapshot.parent]
            .meta.source.inner is Nowhere),
    ensures
        step.deep_view() == addition_started(
            snapshot.snapshot_view(),
            snapshot.parent,
            tree.deep_view(),
        ),
        step matches Step::Ask(_, addition) ==> addition.deep_view().ready(),
{
    let parent: Ref = snapshot.parent;
    let meta: Meta = match tree.get_meta(parent) {
        Some(meta) => meta.clone(),
        None => {
            return Step::Stop(Ok(()), tree, Some(Notice::NoInstance(parent)));
        },
    };
    let mut snapshot: Snapshot = snapshot.to_snapshot();
    let ghost given = snapshot.deep_view();
    let mut properties: Properties = Table::new();
    std::mem::swap(&mut properties, &mut snapshot.properties);
    snapshot.properties = validate_properties(properties);
    assert(snapshot.deep_view().children =~= given.children);
    match meta.source.inner.clone() {
        SourceKind::Path(path) => start_files(tree, parent, meta, snapshot, path),
        SourceKind::Project(_, path, node, _) => match node.path() {
            Some(custom) => {
                let place: String = custom_path(path.as_str(), custom.as_str());
                start_files(tree, parent, meta, snapshot, place)
            },
            None => Step::Ask(
                Request::Load(path),
                Addition { tree, parent, meta, stage: Stage::Load { snapshot } },
            ),
        },
        SourceKind::Nowhere => Step::Stop(Ok(()), tree, None),
    }
}

/// What is known of an instance once new ones were added to it.
fn add_to(meta: Meta, source: Source) -> (result: Meta)
    ensures
        result.deep_view() == added_to(meta.deep_view(), source.deep_view()),
{
    match meta.source.inner.clone() {
        SourceKind::Project(name, path, node, node_path) => {
            let project: Source = Source::project(name.as_str(), path.as_str(), node, node_path);
            meta.with_source(project.with_relevants(source.relevants))
        },
        _ => meta.with_source(source),
    }
}

impl Addition {
    /// Goes on with the answer to the request that was asked.
    pub fn resume(self, reply: Reply) -> (step: Step<Addition>)
        requires
            self.deep_view().ready(),
        ensures
            step.deep_view() == addition_resumed(self.deep_view(), reply.deep_view()),
            step matches Step::Ask(_, addition) ==> addition.deep_view().ready(),
    {
        let ghost was = self.deep_view();
        let Addition { tree, parent, meta, stage } = self;
        match stage {
            Stage::Files { source, jobs, answers } => {
                let mut answers: Vec<Reply> = answers;
                let ghost told = answers.deep_view();
                answers.push(reply);
                assert(answers.deep_view() =~= told.push(reply.deep_view()));
                assert(jobs.deep_view().last() == jobs@[jobs@.len() - 1].deep_view());
                match place_instance(&jobs[jobs.len() - 1], &answers) {
                    Flow::Ask(request) => Step::Ask(
                        request,
                        Addition {
                            tree,
                            parent,
                            meta,
                            stage: Stage::Files { source, jobs, answers },
                        },
                    ),
                    Flow::Fail(error) => Step::Stop(Err(error), tree, None),
                    Flow::Done(placed) => finish_job(tree, parent, meta, source, jobs, placed),
                }
            },
            Stage::Load { snapshot } => match reply {
                Reply::Project(project) => add_to_project(tree, parent, meta, snapshot, project),
                other => Step::Stop(Err(refuse(&other)), tree, None),
            },
            Stage::Save => match reply.done() {
                Ok(_) => Step::Stop(Ok(()), tree, None),
                Err(error) => Step::Stop(Err(error), tree, None),
            },
        }
    }
}

/// Puts the instance of the last job into the tree and turns to the next.
fn finish_job(
    tree: Tree,
    parent: Ref,
    meta: Meta,
    source: Option<Source>,
    jobs: Vec<Job>,
    placed: Placed,
) -> (step: Step<Addition>)
    requires
        tree.deep_view().contains_key(parent),
        jobs@.len() > 0,
        forall|i: int|
            0 <= i < jobs.deep_view().len() ==> tree.deep_view().contains_key(
                (#[trigger] jobs.deep_view()[i]).parent,
            ),
    ensures
        step.deep_view() == job_done(
            AdditionView {
                tree: tree.deep_view(),
                parent,
                meta: meta.deep_view(),
                stage: StageView::Save,
            },
            source.deep_view(),
            jobs.deep_view(),
            placed.deep_view(),
        ),
        step matches Step::Ask(_, addition) ==> addition.deep_view().ready(),
{
    let ghost given = jobs.deep_view();
    let ghost came = placed.deep_view();
    let mut tree: Tree = tree;
    let mut jobs: Vec<Job> = jobs;
    let job: Job = match jobs.pop() {
        Some(job) => job,
        None => {
            return Step::Stop(Ok(()), tree, None);
        },
    };
    let ghost job_view = job.deep_view();
    let ghost rest = given.drop_last();
    assert(jobs.deep_view() =~= rest);
    assert(given.last() == job_view);
    tree.insert_instance_with_ref(&job.snapshot, placed.meta.clone(), job.parent);
    let source: Source = match source {
        Some(source) => source,
        None => placed.source,
    };
    let id: Ref = job.snapshot.id;
    let mut children: Vec<Snapshot> = job.snapshot.children;
    let ghost below = jobs_below(job_view.snapshot, came);
    let ghost count = children@.len() as int;
    assert(jobs.deep_view() =~= rest + below.take(0));
    assert(children.deep_view() =~= job_view.snapshot.children);
    while children.len() > 0
        invariant
            children@.len() <= count,
            count == job_view.snapshot.children.len(),
            children.deep_view() == job_view.snapshot.children.take(children@.len() as int),
            below == jobs_below(job_view.snapshot, came),
            jobs.deep_view() == rest + below.take(count - children@.len()),
            placed.path@ == came.path,
            placed.meta.deep_view() == came.meta,
            id == job_view.snapshot.id,
        decreases children@.len(),
    {
        let ghost done = count - children@.len();
        let ghost list = children.deep_view();
        let child: Snapshot = match children.pop() {
            Some(child) => child,
            None => {
                return Step::Stop(Ok(()), tree, None);
            },
        };
        assert(children.deep_view() =~= list.drop_last());
        assert(list.drop_last() =~= job_view.snapshot.children.take(children@.len() as int));
        assert(child.deep_view() == list.last());
        let ghost before = jobs.deep_view();
        jobs.push(
            Job {
                parent: id,
                path: placed.path.clone(),
                meta: placed.meta.clone(),
                snapshot: child,
            },
        );
        assert(jobs.deep_view() =~= before.push(below[done]));
        assert(jobs.deep_view() =~= rest + below.take(done + 1));
    }
    assert(below.take(count) =~= below);
    if jobs.len() == 0 {
        tree.update_meta(parent, add_to(meta, source));
        Step::Stop(Ok(()), tree, None)
    } else {
        assert(jobs.deep_view().last() == jobs@[jobs@.len() - 1].deep_view());
        let request = Request::IsFile(jobs[jobs.len() - 1].path.clone());
        let answers: Vec<Reply> = Vec::new();
        assert(answers.deep_view() =~= Seq::empty());
        Step::Ask(
            request,
            Addition {
                tree,
                parent,
                meta,
                stage: Stage::Files { source: Some(source), jobs, answers },
            },
        )
    }
}

/// Adds the new instances to a project and to the tree, and asks to save the project.
fn add_to_project(
    tree: Tree,
    parent: Ref,
    meta: Meta,
    snapshot: Snapshot,
    project: Project,
) -> (step: Step<Addition>)
    requires
        tree.deep_view().contains_key(parent),
    ensures
        step.deep_view() == project_loaded(
            AdditionView {
                tree: tree.deep_view(),
                parent,
                meta: meta.deep_view(),
                stage: StageView::Save,
            },
            snapshot.deep_view(),
            project.deep_view(),
        ),
        step matches Step::Ask(_, addition) ==> addition.deep_view().ready(),
{
    let mut tree: Tree = tree;
    let mut project: Project = project;
    match meta.source.inner.clone() {
        SourceKind::Project(_, path, _, node_path) => {
            let mut node: ProjectNode = match project.node.find(&node_path) {
                Some(node) => node.clone(),
                None => {
                    return Step::Stop(Err(WriteError::NoNode(node_path)), tree, None);
                },
            };
            proof {
                lemma_parent_stays(
                    tree.deep_view(),
                    parent,
                    path@,
                    node_path.deep_view(),
                    seq![snapshot.deep_view()],
                    meta.context.deep_view(),
                );
            }
            add_project_instances(
                parent,
                &path,
                &node_path,
                &snapshot,
                &mut node,
                &meta.context,
                &mut tree,
            );
            project.node.replace(&node_path, node);
            Step::Ask(
                Request::Save { path, project },
                Addition { tree, parent, meta, stage: Stage::Save },
            )
        },
        _ => Step::Stop(Ok(()), tree, None),
    }
}

} // verus!
