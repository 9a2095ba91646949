//! Removing an instance.
use crate::exchange::{
    asked_done, asked_flag, asked_flags, asked_place, asked_places, asked_project, ErrorView, Flow,
    FlowView, Notice, NoticeView, Reply, ReplyView, Request, RequestView, Step, StepView,
    WriteError,
};
use crate::meta::{
    first_data, first_file, rule_numbers, EntryView, KindView, Meta, MetaView, Middleware, Source,
    SourceEntry, SourceKind, SourceView,
};
use crate::node::{
    node_at, parent_path, with_node_at, NodePath, NodeView, Project, ProjectNode,
};
use crate::path::{get_name, name_of};
use crate::tree::{removed, Instance, InstanceView, Tree, TreeView};
use crate::write::files::{find_match, find_place, first_match, first_place, locate, locating};
use rbx_dom_weak::types::Ref;
use vstd::prelude::*;

verus! {

/// Removes the files and folders of an instance, one after the other, and counts the answers that
/// were used. A project file stays. A file may be gone already, a folder may not.
pub open spec fn disposing(entries: Seq<EntryView>, answers: Seq<ReplyView>, at: int) -> FlowView<
    int,
>
    decreases entries.len(),
{
    if entries.len() == 0 {
        FlowView::Done(at)
    } else {
        let rest = entries.skip(1);
        match entries[0] {
            EntryView::Project(_) => disposing(rest, answers, at),
            EntryView::Folder(path) => asked_done(answers, at, RequestView::Remove(path)).and_then(
                |done: ()| disposing(rest, answers, at + 1),
            ),
            EntryView::File(path) | EntryView::Data(path) => asked_flag(
                answers,
                at,
                RequestView::Exists(path),
            ).and_then(
                |there: bool|
                    if there {
                        asked_done(answers, at + 1, RequestView::Remove(path)).and_then(
                            |done: ()| disposing(rest, answers, at + 2),
                        )
                    } else {
                        disposing(rest, answers, at + 1)
                    },
            ),
        }
    }
}

/// A count of answers.
pub struct Count {
    pub used: usize,
}

impl DeepView for Count {
    type V = int;

    open spec fn deep_view(&self) -> int {
        self.used as int
    }
}

/// Removes the files and folders of an instance.
pub fn dispose(entries: &Vec<SourceEntry>, answers: &Vec<Reply>, from: usize) -> (flow: Flow<Count>)
    ensures
        flow.deep_view() == disposing(entries.deep_view(), answers.deep_view(), from as int),
{
    let ghost all = entries.deep_view();
    let ghost told = answers.deep_view();
    let mut i: usize = 0;
    let mut at: usize = from;
    assert(all.skip(0) == all);
    while i < entries.len()
        invariant
            i <= entries@.len(),
            all == entries.deep_view(),
            told == answers.deep_view(),
            disposing(all, told, from as int) == disposing(all.skip(i as int), told, at as int),
        decreases entries@.len() - i,
    {
        let ghost list = all.skip(i as int);
        assert(list[0] == entries@[i as int].deep_view());
        assert(list.skip(1) == all.skip(i + 1));
        match &entries[i] {
            SourceEntry::Project(_) => {},
            SourceEntry::Folder(path) => {
                if answers.len() <= at {
                    return Flow::Ask(Request::Remove(path.clone()));
                }
                assert(told[at as int] == answers@[at as int].deep_view());
                match answers[at].done() {
                    Ok(_) => {},
                    Err(error) => {
                        return Flow::Fail(error);
                    },
                }
                at = at + 1;
            },
            SourceEntry::File(path) | SourceEntry::Data(path) => {
                if answers.len() <= at {
                    return Flow::Ask(Request::Exists(path.clone()));
                }
                assert(told[at as int] == answers@[at as int].deep_view());
                let there: bool = match answers[at].flag() {
                    Ok(there) => there,
                    Err(error) => {
                        return Flow::Fail(error);
                    },
                };
                at = at + 1;
                if there {
                    if answers.len() <= at {
                        return Flow::Ask(Request::Remove(path.clone()));
                    }
                    assert(told[at as int] == answers@[at as int].deep_view());
                    match answers[at].done() {
                        Ok(_) => {},
                        Err(error) => {
                            return Flow::Fail(error);
                        },
                    }
                    at = at + 1;
                }
            },
        }
        i = i + 1;
    }
    Flow::Done(Count { used: at })
}

/// The source that an instance has after it was made a single file, if it was, and how many
/// answers were used.
pub struct Folded {
    pub source: Option<Source>,
    pub used: usize,
}

/// What a [`Folded`] is.
pub struct FoldedView {
    pub source: Option<SourceView>,
    pub used: int,
}

impl DeepView for Folded {
    type V = FoldedView;

    open spec fn deep_view(&self) -> FoldedView {
        FoldedView { source: self.source.deep_view(), used: self.used as int }
    }
}

/// Removes the folder that an instance no longer needs.
pub open spec fn clearing(
    folder: Seq<char>,
    source: SourceView,
    answers: Seq<ReplyView>,
    at: int,
) -> FlowView<FoldedView> {
    asked_done(answers, at, RequestView::Remove(folder)).and_then(
        |done: ()| FlowView::Done(FoldedView { source: Some(source), used: at + 1 }),
    )
}

/// Moves the data file of an instance, if it has one and a place for it is found, out of the
/// folder, and removes the folder.
pub open spec fn emptying(
    meta: MetaView,
    folder: Seq<char>,
    new: Seq<char>,
    answers: Seq<ReplyView>,
    at: int,
) -> FlowView<FoldedView> {
    let source = SourceView::file(new);
    match first_data(meta.source.relevants) {
        None => clearing(folder, source, answers, at),
        Some(data) => asked_places(
            answers,
            at,
            locating(meta.context, Middleware::InstanceData, folder, name_of(folder), false),
        ).and_then(
            |places: Seq<Option<Seq<char>>>|
                match first_place(places) {
                    None => clearing(folder, source, answers, at + 1),
                    Some(place) => asked_done(
                        answers,
                        at + 1,
                        RequestView::Rename(data, place),
                    ).and_then(
                        |moved: ()|
                            clearing(
                                folder,
                                source.add(EntryView::Data(place)),
                                answers,
                                at + 2,
                            ),
                    ),
                },
        ),
    }
}

/// Makes the instance at `folder`, which is about to lose its last child, the single file that it
/// has in there, at the place that the file's rule gives. Where there is no such rule or place it
/// stays a folder.
pub open spec fn folding(
    meta: MetaView,
    folder: Seq<char>,
    file: Seq<char>,
    answers: Seq<ReplyView>,
    at: int,
) -> FlowView<FoldedView> {
    let rules = rule_numbers(meta.context);
    asked_flags(answers, at, RequestView::MatchesChild { rules, path: file }).and_then(
        |flags: Seq<bool>|
            match first_match(rules, flags) {
                None => FlowView::Done(FoldedView { source: None, used: at + 1 }),
                Some(rule) => asked_place(
                    answers,
                    at + 1,
                    RequestView::Locate {
                        rule,
                        path: folder,
                        name: name_of(folder),
                        is_dir: false,
                    },
                ).and_then(
                    |place: Option<Seq<char>>|
                        match place {
                            None => FlowView::Done(FoldedView { source: None, used: at + 2 }),
                            Some(new) => asked_done(
                                answers,
                                at + 2,
                                RequestView::Rename(file, new),
                            ).and_then(
                                |moved: ()| emptying(meta, folder, new, answers, at + 3),
                            ),
                        },
                ),
            },
    )
}

/// What becomes of the instance above one that is removed: if it is a folder with its file in it
/// and loses its last child it becomes a single file. That there is no such instance is an error.
pub open spec fn leaving(
    parent: Option<InstanceView>,
    answers: Seq<ReplyView>,
    at: int,
) -> FlowView<FoldedView> {
    let unchanged = FlowView::Done(FoldedView { source: None, used: at });
    match parent {
        None => FlowView::Fail(ErrorView::NoParent),
        Some(parent) => if parent.children.len() != 1 {
            unchanged
        } else {
            match (parent.meta.source.inner, first_file(parent.meta.source.relevants)) {
                (KindView::Path(folder), Some(file)) => folding(
                    parent.meta,
                    folder,
                    file,
                    answers,
                    at,
                ),
                _ => unchanged,
            }
        },
    }
}

/// Removes the files of an instance and sees to the instance above.
pub open spec fn clearing_away(
    meta: MetaView,
    parent: Option<InstanceView>,
    answers: Seq<ReplyView>,
    at: int,
) -> FlowView<FoldedView> {
    disposing(meta.source.relevants, answers, at).and_then(
        |used: int| leaving(parent, answers, used),
    )
}

/// Removes the folder that an instance no longer needs.
fn clear(folder: &String, source: Source, answers: &Vec<Reply>, at: usize) -> (flow: Flow<Folded>)
    ensures
        flow.deep_view() == clearing(
            folder@,
            source.deep_view(),
            answers.deep_view(),
            at as int,
        ),
{
    if answers.len() <= at {
        return Flow::Ask(Request::Remove(folder.clone()));
    }
    assert(answers.deep_view()[at as int] == answers@[at as int].deep_view());
    match answers[at].done() {
        Ok(_) => Flow::Done(Folded { source: Some(source), used: at + 1 }),
        Err(error) => Flow::Fail(error),
    }
}

/// Moves the data file of an instance out of the folder and removes the folder.
fn empty(
    meta: &Meta,
    folder: &String,
    new: &String,
    answers: &Vec<Reply>,
    at: usize,
) -> (flow: Flow<Folded>)
    ensures
        flow.deep_view() == emptying(
            meta.deep_view(),
            folder@,
            new@,
            answers.deep_view(),
            at as int,
        ),
{
    let ghost told = answers.deep_view();
    let mut source: Source = Source::file(new.as_str());
    let data: &String = match meta.source.get_data() {
        Some(data) => data,
        None => {
            return clear(folder, source, answers, at);
        },
    };
    if answers.len() <= at {
        let name: String = get_name(folder.as_str());
        return Flow::Ask(locate(&meta.context, Middleware::InstanceData, folder, &name, false));
    }
    assert(told[at as int] == answers@[at as int].deep_view());
    let places: &Vec<Option<String>> = match answers[at].places() {
        Ok(places) => places,
        Err(error) => {
            return Flow::Fail(error);
        },
    };
    let place: String = match find_place(places) {
        Some(place) => place,
        None => {
            return clear(folder, source, answers, at + 1);
        },
    };
    source.add_data(place.as_str());
    if answers.len() <= at + 1 {
        return Flow::Ask(Request::Rename(data.clone(), place));
    }
    assert(told[at + 1] == answers@[at + 1].deep_view());
    match answers[at + 1].done() {
        Ok(_) => clear(folder, source, answers, at + 2),
        Err(error) => Flow::Fail(error),
    }
}

/// Makes the instance at `folder` the single file that it has in there.
fn fold(
    meta: &Meta,
    folder: &String,
    file: &String,
    answers: &Vec<Reply>,
    at: usize,
) -> (flow: Flow<Folded>)
    ensures
        flow.deep_view() == folding(
            meta.deep_view(),
            folder@,
            file@,
            answers.deep_view(),
            at as int,
        ),
{
    let ghost told = answers.deep_view();
    let rules: Vec<u64> = meta.context.sync_rules();
    if answers.len() <= at {
        return Flow::Ask(Request::MatchesChild { rules, path: file.clone() });
    }
    assert(told[at as int] == answers@[at as int].deep_view());
    let flags: &Vec<bool> = match answers[at].flags() {
        Ok(flags) => flags,
        Err(error) => {
            return Flow::Fail(error);
        },
    };
    let rule: u64 = match find_match(&rules, flags) {
        Some(rule) => rule,
        None => {
            return Flow::Done(Folded { source: None, used: at + 1 });
        },
    };
    if answers.len() <= at + 1 {
        let name: String = get_name(folder.as_str());
        return Flow::Ask(Request::Locate { rule, path: folder.clone(), name, is_dir: false });
    }
    assert(told[at + 1] == answers@[at + 1].deep_view());
    let place: &Option<String> = match answers[at + 1].place() {
        Ok(place) => place,
        Err(error) => {
            return Flow::Fail(error);
        },
    };
    let new: &String = match place {
        Some(new) => new,
        None => {
            return Flow::Done(Folded { source: None, used: at + 2 });
        },
    };
    if answers.len() <= at + 2 {
        return Flow::Ask(Request::Rename(file.clone(), new.clone()));
    }
    assert(told[at + 2] == answers@[at + 2].deep_view());
    match answers[at + 2].done() {
        Ok(_) => empty(meta, folder, new, answers, at + 3),
        Err(error) => Flow::Fail(error),
    }
}

/// Removes the files of an instance and sees to the instance above.
pub fn clear_away(
    meta: &Meta,
    parent: Option<&Instance>,
    answers: &Vec<Reply>,
    at: usize,
) -> (flow: Flow<Folded>)
    ensures
        flow.deep_view() == clearing_away(
            meta.deep_view(),
            parent.deep_view(),
            answers.deep_view(),
            at as int,
        ),
{
    let used: usize = match dispose(&meta.source.relevants, answers, at) {
        Flow::Ask(request) => {
            return Flow::Ask(request);
        },
        Flow::Fail(error) => {
            return Flow::Fail(error);
        },
        Flow::Done(count) => count.used,
    };
    let parent: &Instance = match parent {
        Some(parent) => parent,
        None => {
            return Flow::Fail(WriteError::NoParent);
        },
    };
    if parent.children.len() != 1 {
        return Flow::Done(Folded { source: None, used });
    }
    match (parent.meta.source.get(), parent.meta.source.get_file()) {
        (SourceKind::Path(folder), Some(file)) => fold(&parent.meta, folder, file, answers, used),
        _ => Flow::Done(Folded { source: None, used }),
    }
}

/// How a removal ends: the result, and the new source of the instance above, if it got one.
pub struct Finish {
    pub result: Result<(), WriteError>,
    pub source: Option<Source>,
}

/// What a [`Finish`] is.
pub struct FinishView {
    pub result: Result<(), ErrorView>,
    pub source: Option<SourceView>,
}

impl DeepView for Finish {
    type V = FinishView;

    open spec fn deep_view(&self) -> FinishView {
        FinishView {
            result: match self.result {
                Ok(_) => Ok(()),
                Err(error) => Err(error.deep_view()),
            },
            source: self.source.deep_view(),
        }
    }
}

/// Saves the project.
pub open spec fn finishing(
    path: Seq<char>,
    project: NodeView,
    source: Option<SourceView>,
    answers: Seq<ReplyView>,
    at: int,
) -> FlowView<FinishView> {
    match asked_done(answers, at, RequestView::Save { path, project }) {
        FlowView::Ask(request) => FlowView::Ask(request),
        FlowView::Fail(error) => FlowView::Done(FinishView { result: Err(error), source }),
        FlowView::Done(_) => FlowView::Done(FinishView { result: Ok(()), source }),
    }
}

/// A project without the node `own`, which stands below the node that `above` leads to.
pub open spec fn without_node(
    project: NodeView,
    above: Seq<Seq<char>>,
    own: Seq<char>,
) -> NodeView {
    match node_at(project, above) {
        Some(parent) => with_node_at(
            project,
            above,
            NodeView { tree: parent.tree.remove(own), ..parent },
        ),
        None => project,
    }
}

/// Whether the node `own` stands below the node that `above` leads to.
pub open spec fn has_node(project: NodeView, above: Seq<Seq<char>>, own: Seq<char>) -> bool {
    node_at(project, above) matches Some(parent) && parent.tree.contains_key(own)
}

/// Removes the node of an instance from its project, and its files, where the node says that the
/// instance has some.
pub open spec fn project_removing(
    id: Ref,
    meta: MetaView,
    parent: Option<InstanceView>,
    own: Seq<char>,
    path: Seq<char>,
    node: NodeView,
    node_path: Seq<Seq<char>>,
    answers: Seq<ReplyView>,
) -> FlowView<FinishView> {
    let above = parent_path(node_path);
    asked_project(answers, 0, RequestView::Load(path)).and_then(
        |project: NodeView|
            if !has_node(project, above, own) {
                FlowView::Fail(ErrorView::NotInProject(id, project))
            } else {
                let rest = without_node(project, above, own);
                if node.path is None {
                    finishing(path, rest, None, answers, 1)
                } else {
                    clearing_away(meta, parent, answers, 1).and_then(
                        |folded: FoldedView|
                            finishing(path, rest, folded.source, answers, folded.used),
                    )
                }
            },
    )
}

/// Removes what an instance has outside the tree.
pub open spec fn removing(
    id: Ref,
    meta: MetaView,
    parent: Option<InstanceView>,
    answers: Seq<ReplyView>,
) -> FlowView<FinishView> {
    match meta.source.inner {
        KindView::Path(_) => clearing_away(meta, parent, answers, 0).and_then(
            |folded: FoldedView|
                FlowView::Done(FinishView { result: Ok(()), source: folded.source }),
        ),
        KindView::Project(own, path, node, node_path) => project_removing(
            id,
            meta,
            parent,
            own,
            path,
            node,
            node_path,
            answers,
        ),
        KindView::Nowhere => FlowView::Done(FinishView { result: Ok(()), source: None }),
    }
}

/// Removes the node of an instance from its project, and its files, if it has some.
fn remove_project(
    id: Ref,
    meta: &Meta,
    parent: Option<&Instance>,
    own: &String,
    path: &String,
    node: &ProjectNode,
    node_path: &NodePath,
    answers: &Vec<Reply>,
) -> (flow: Flow<Finish>)
    ensures
        flow.deep_view() == project_removing(
            id,
            meta.deep_view(),
            parent.deep_view(),
            own@,
            path@,
            node.deep_view(),
            node_path.deep_view(),
            answers.deep_view(),
        ),
{
    let ghost told = answers.deep_view();
    if answers.len() <= 0 {
        return Flow::Ask(Request::Load(path.clone()));
    }
    assert(told[0] == answers@[0].deep_view());
    let project: &Project = match answers[0].project() {
        Ok(project) => project,
        Err(error) => {
            return Flow::Fail(error);
        },
    };
    let above: NodePath = node_path.parent();
    let mut parent_node: ProjectNode = match project.node.find(&above) {
        Some(node) => node.clone(),
        None => {
            return Flow::Fail(WriteError::NotInProject(id, Project { node: project.node.clone() }));
        },
    };
    if parent_node.remove_child(own).is_none() {
        return Flow::Fail(WriteError::NotInProject(id, Project { node: project.node.clone() }));
    }
    let mut top: ProjectNode = project.node.clone();
    top.replace(&above, parent_node);
    let rest = Project { node: top };
    let mut source: Option<Source> = None;
    let mut at: usize = 1;
    if node.path().is_some() {
        match clear_away(meta, parent, answers, 1) {
            Flow::Ask(request) => {
                return Flow::Ask(request);
            },
            Flow::Fail(error) => {
                return Flow::Fail(error);
            },
            Flow::Done(folded) => {
                source = folded.source;
                at = folded.used;
            },
        }
    }
    if answers.len() <= at {
        return Flow::Ask(Request::Save { path: path.clone(), project: rest });
    }
    assert(told[at as int] == answers@[at as int].deep_view());
    Flow::Done(Finish { result: answers[at].done(), source })
}

/// Removes what an instance has outside the tree.
pub fn remove_outside(
    id: Ref,
    meta: &Meta,
    parent: Option<&Instance>,
    answers: &Vec<Reply>,
) -> (flow: Flow<Finish>)
    ensures
        flow.deep_view() == removing(
            id,
            meta.deep_view(),
            parent.deep_view(),
            answers.deep_view(),
        ),
{
    match meta.source.get() {
        SourceKind::Path(_) => match clear_away(meta, parent, answers, 0) {
            Flow::Ask(request) => Flow::Ask(request),
            Flow::Fail(error) => Flow::Fail(error),
            Flow::Done(folded) => Flow::Done(Finish { result: Ok(()), source: folded.source }),
        },
        SourceKind::Project(own, path, node, node_path) => remove_project(
            id,
            meta,
            parent,
            own,
            path,
            node,
            node_path,
            answers,
        ),
        SourceKind::Nowhere => Flow::Done(Finish { result: Ok(()), source: None }),
    }
}

/// A removal under way. It holds the tree until it stops.
pub struct Removal {
    tree: Tree,
    id: Ref,
    answers: Vec<Reply>,
}

/// What a [`Removal`] is.
pub struct RemovalView {
    pub tree: TreeView,
    pub id: Ref,
    pub answers: Seq<ReplyView>,
}

impl DeepView for Removal {
    type V = RemovalView;

    closed spec fn deep_view(&self) -> RemovalView {
        RemovalView {
            tree: self.tree.deep_view(),
            id: self.id,
            answers: self.answers.deep_view(),
        }
    }
}

/// The instance above another.
pub open spec fn parent_of(tree: TreeView, id: Ref) -> Option<InstanceView> {
    match tree[id].parent {
        Some(parent) if tree.contains_key(parent) => Some(tree[parent]),
        _ => None,
    }
}

/// The tree in which the instance above another has a new source, if there is one.
pub open spec fn resourced(tree: TreeView, id: Ref, source: Option<SourceView>) -> TreeView {
    match (tree[id].parent, source) {
        (Some(parent), Some(source)) if tree.contains_key(parent) => {
            let above = tree[parent];
            tree.insert(
                parent,
                InstanceView { meta: MetaView { source, ..above.meta }, ..above },
            )
        },
        _ => tree,
    }
}

/// The tree after a removal ended: without the instance and all that is below it, unless the
/// removal failed.
pub open spec fn ended(tree: TreeView, id: Ref, finish: FinishView) -> TreeView {
    let tree = resourced(tree, id, finish.source);
    match finish.result {
        Ok(_) => removed(tree, id),
        Err(_) => tree,
    }
}

/// Where a removal stands after the answers so far.
pub open spec fn removal_step(removal: RemovalView) -> StepView<RemovalView> {
    let tree = removal.tree;
    let id = removal.id;
    match removing(id, tree[id].meta, parent_of(tree, id), removal.answers) {
        FlowView::Ask(request) => StepView::Ask(request, removal),
        FlowView::Fail(error) => StepView::Stop(Err(error), tree, None),
        FlowView::Done(finish) => StepView::Stop(finish.result, ended(tree, id, finish), None),
    }
}

/// The start of a removal.
pub open spec fn removal_started(id: Ref, tree: TreeView) -> StepView<RemovalView> {
    if tree.contains_key(id) {
        removal_step(RemovalView { tree, id, answers: Seq::empty() })
    } else {
        StepView::Stop(Ok(()), tree, Some(NoticeView::NoInstance(id)))
    }
}

/// The removal after a reply.
pub open spec fn removal_resumed(removal: RemovalView, reply: ReplyView) -> StepView<RemovalView> {
    removal_step(RemovalView { answers: removal.answers.push(reply), ..removal })
}

/// Starts to remove an instance, and all that is below it, from the tree.
///
/// Where the tree has no such instance nothing happens but that a notice says so.
pub fn apply_removal(id: Ref, tree: Tree) -> (step: Step<Removal>)
    requires
        tree.deep_view().contains_key(id) ==> !(tree.deep_view()[id].meta.source.inner is Nowhere),
    ensures
        step.deep_view() == removal_started(id, tree.deep_view()),
        step matches Step::Ask(_, removal) ==> removal.deep_view().tree.contains_key(
            removal.deep_view().id,
        ),
{
    if !tree.contains(id) {
        return Step::Stop(Ok(()), tree, Some(Notice::NoInstance(id)));
    }
    let removal = Removal { tree, id, answers: Vec::new() };
    assert(removal.answers.deep_view() =~= Seq::empty());
    removal.advance()
}

impl Removal {
    /// Goes as far as the answers lead.
    fn advance(self) -> (step: Step<Removal>)
        requires
            self.deep_view().tree.contains_key(self.deep_view().id),
        ensures
            step.deep_view() == removal_step(self.deep_view()),
            step matches Step::Ask(_, removal) ==> removal == self,
    {
        let id: Ref = self.id;
        let mut above: Option<Ref> = None;
        let flow: Flow<Finish> = match self.tree.get_instance(id) {
            Some(instance) => {
                let parent: Option<&Instance> = match instance.parent {
                    Some(parent) => self.tree.get_instance(parent),
                    None => None,
                };
                above = instance.parent;
                remove_outside(id, &instance.meta, parent, &self.answers)
            },
            None => Flow::Fail(WriteError::Mismatch),
        };
        match flow {
            Flow::Ask(request) => Step::Ask(request, self),
            Flow::Fail(error) => Step::Stop(Err(error), self.tree, None),
            Flow::Done(finish) => {
                let mut tree: Tree = self.tree;
                match (above, finish.source) {
                    (Some(parent), Some(source)) => {
                        let meta: Option<Meta> = match tree.get_meta(parent) {
                            Some(meta) => Some(meta.clone()),
                            None => None,
                        };
                        match meta {
                            Some(meta) => {
                                tree.update_meta(parent, meta.with_source(source));
                            },
                            None => {},
                        }
                    },
                    _ => {},
                }
                if finish.result.is_ok() {
                    tree.remove_instance(id);
                }
                Step::Stop(finish.result, tree, None)
            },
        }
    }

    /// Goes on with the answer to the request that was asked.
    pub fn resume(self, reply: Reply) -> (step: Step<Removal>)
        requires
            self.deep_view().tree.contains_key(self.deep_view().id),
        ensures
            step.deep_view() == removal_resumed(self.deep_view(), reply.deep_view()),
            step matches Step::Ask(_, removal) ==> removal.deep_view().tree.contains_key(
                removal.deep_view().id,
            ),
    {
        let ghost told = self.answers.deep_view();
        let mut answers: Vec<Reply> = self.answers;
        answers.push(reply);
        assert(answers.deep_view() =~= told.push(reply.deep_view()));
        let removal = Removal { tree: self.tree, id: self.id, answers };
        removal.advance()
    }
}

} // verus!
