//! Updating an instance.
use crate::exchange::{
    asked_data, asked_done, asked_flag, asked_kind, asked_places, asked_project, asked_rest,
    ErrorView, Flow, FlowView, Notice, NoticeView, Reply, ReplyView, Request, RequestView, Step,
    StepView, WriteError,
};
use crate::meta::{
    first_data, first_file, Context, EntryView, KindView, Meta, MetaView, Middleware, Source,
    SourceEntry, SourceKind, SourceView, SyncRule,
};
use crate::node::{
    node_at, parent_path, with_node_at, NodePath, NodeView, Project, ProjectNode,
};
use crate::path::{custom_path, custom_place, get_name, name_of, with_file_name, with_name};
use crate::properties::{serialize_properties, serialized, validate_properties, validated};
use crate::snapshot::UpdatedSnapshot;
use crate::table::Table;
use crate::text::{replace, replaced};
use crate::tree::{Instance, InstanceView, Tree, TreeView};
use crate::value::Properties;
use crate::write::files::{find_place, first_place, locate, locating};
use rbx_dom_weak::types::{Ref, Variant};
use vstd::prelude::*;

verus! {

/// A path with an instance's name replaced in its last name.
pub open spec fn renamed(path: Seq<char>, from: Seq<char>, to: Seq<char>) -> Seq<char> {
    with_name(path, replaced(name_of(path), from, to))
}

/// A path with an instance's name replaced in its last name.
pub fn rename(path: &str, from: &str, to: &str) -> (result: String)
    ensures
        result@ == renamed(path@, from@, to@),
{
    let name: String = get_name(path);
    let name: String = replace(name.as_str(), from, to);
    with_file_name(path, name.as_str())
}

/// A file or folder of an instance that got another name. Project files keep theirs.
pub open spec fn renamed_entry(entry: EntryView, from: Seq<char>, to: Seq<char>) -> EntryView {
    match entry {
        EntryView::Project(path) => EntryView::Project(path),
        EntryView::File(path) => EntryView::File(renamed(path, from, to)),
        EntryView::Folder(path) => EntryView::Folder(renamed(path, from, to)),
        EntryView::Data(path) => EntryView::Data(renamed(path, from, to)),
    }
}

/// The files and folders of an instance that got another name.
pub open spec fn renamed_entries(
    entries: Seq<EntryView>,
    from: Seq<char>,
    to: Seq<char>,
) -> Seq<EntryView> {
    entries.map_values(|entry: EntryView| renamed_entry(entry, from, to))
}

/// What has to be moved when an instance gets another name.
pub open spec fn moves(entries: Seq<EntryView>, from: Seq<char>, to: Seq<char>) -> Seq<RequestView>
    decreases entries.len(),
{
    if entries.len() == 0 {
        Seq::empty()
    } else {
        let entry = entries.last();
        let before = moves(entries.drop_last(), from, to);
        if entry is Project {
            before
        } else {
            before.push(RequestView::Rename(entry.path(), renamed(entry.path(), from, to)))
        }
    }
}

/// The files and folders of an instance that got another name, and what has to be moved.
fn rename_entries(entries: &Vec<SourceEntry>, from: &str, to: &str) -> (result: (
    Vec<SourceEntry>,
    Vec<Request>,
))
    ensures
        result.0.deep_view() == renamed_entries(entries.deep_view(), from@, to@),
        result.1.deep_view() == moves(entries.deep_view(), from@, to@),
{
    let ghost all = entries.deep_view();
    let mut list: Vec<SourceEntry> = Vec::new();
    let mut requests: Vec<Request> = Vec::new();
    let mut i: usize = 0;
    assert(list.deep_view() =~= renamed_entries(all.take(0), from@, to@));
    assert(requests.deep_view() =~= moves(all.take(0), from@, to@));
    while i < entries.len()
        invariant
            i <= entries@.len(),
            all == entries.deep_view(),
            list.deep_view() == renamed_entries(all.take(i as int), from@, to@),
            requests.deep_view() == moves(all.take(i as int), from@, to@),
        decreases entries@.len() - i,
    {
        let ghost entry = entries@[i as int].deep_view();
        let ghost listed = list.deep_view();
        let ghost asked = requests.deep_view();
        let ghost more = all.take(i + 1);
        assert(more.drop_last() == all.take(i as int));
        assert(more.last() == entry);
        match &entries[i] {
            SourceEntry::Project(path) => {
                list.push(SourceEntry::Project(path.clone()));
            },
            SourceEntry::File(path) => {
                let new: String = rename(path.as_str(), from, to);
                list.push(SourceEntry::File(new.clone()));
                requests.push(Request::Rename(path.clone(), new));
            },
            SourceEntry::Folder(path) => {
                let new: String = rename(path.as_str(), from, to);
                list.push(SourceEntry::Folder(new.clone()));
                requests.push(Request::Rename(path.clone(), new));
            },
            SourceEntry::Data(path) => {
                let new: String = rename(path.as_str(), from, to);
                list.push(SourceEntry::Data(new.clone()));
                requests.push(Request::Rename(path.clone(), new));
            },
        }
        assert(list.deep_view() =~= listed.push(renamed_entry(entry, from@, to@)));
        assert(list.deep_view() =~= renamed_entries(more, from@, to@));
        assert(requests.deep_view() =~= moves(more, from@, to@));
        i = i + 1;
    }
    assert(all.take(i as int) == all);
    (list, requests)
}

/// Has requests carried out one after the other.
pub open spec fn carrying_out(
    requests: Seq<RequestView>,
    answers: Seq<ReplyView>,
    at: int,
) -> FlowView<()>
    decreases requests.len(),
{
    if requests.len() == 0 {
        FlowView::Done(())
    } else {
        asked_done(answers, at, requests[0]).and_then(
            |done: ()| carrying_out(requests.skip(1), answers, at + 1),
        )
    }
}

/// Has requests carried out one after the other, from the start of the conversation on.
fn carry_out(requests: Vec<Request>, answers: &Vec<Reply>) -> (flow: Flow<()>)
    ensures
        flow.deep_view() == carrying_out(requests.deep_view(), answers.deep_view(), 0),
        flow is Done ==> requests@.len() <= answers@.len(),
{
    let ghost all = requests.deep_view();
    let mut list: Vec<Request> = requests;
    let ghost told = answers.deep_view();
    let mut i: usize = 0;
    assert(all.skip(0) == all);
    while i < list.len()
        invariant
            i <= list@.len(),
            i <= answers@.len(),
            all == requests.deep_view(),
            all == list.deep_view(),
            told == answers.deep_view(),
            carrying_out(all, told, 0) == carrying_out(all.skip(i as int), told, i as int),
        decreases list@.len() - i,
    {
        let ghost rest = all.skip(i as int);
        assert(rest[0] == list@[i as int].deep_view());
        assert(rest.skip(1) == all.skip(i + 1));
        if answers.len() <= i {
            return Flow::Ask(list.remove(i));
        }
        assert(told[i as int] == answers@[i as int].deep_view());
        match answers[i].done() {
            Ok(_) => {},
            Err(error) => {
                return Flow::Fail(error);
            },
        }
        i = i + 1;
    }
    Flow::Done(())
}

/// A place that was looked for, and how many answers were used.
pub struct Sought {
    pub place: Option<String>,
    pub used: usize,
}

/// What a [`Sought`] is.
pub struct SoughtView {
    pub place: Option<Seq<char>>,
    pub used: int,
}

impl DeepView for Sought {
    type V = SoughtView;

    open spec fn deep_view(&self) -> SoughtView {
        SoughtView { place: self.place.deep_view(), used: self.used as int }
    }
}

/// Takes the file that is known, or else looks for the place that the rules for its kind give.
pub open spec fn seeking(
    known: Option<Seq<char>>,
    context: Seq<SyncRule>,
    middleware: Middleware,
    path: Seq<char>,
    name: Seq<char>,
    answers: Seq<ReplyView>,
    at: int,
) -> FlowView<SoughtView> {
    match known {
        Some(place) => FlowView::Done(SoughtView { place: Some(place), used: at }),
        None => asked_flag(answers, at, RequestView::IsDir(path)).and_then(
            |is_dir: bool|
                asked_places(
                    answers,
                    at + 1,
                    locating(context, middleware, path, name, is_dir),
                ).and_then(
                    |places: Seq<Option<Seq<char>>>|
                        FlowView::Done(SoughtView { place: first_place(places), used: at + 2 }),
                ),
        ),
    }
}

/// Takes the file that is known, or else looks for the place that the rules for its kind give.
pub fn seek(
    known: Option<&String>,
    context: &Context,
    middleware: Middleware,
    path: &String,
    name: &String,
    answers: &Vec<Reply>,
    at: usize,
) -> (flow: Flow<Sought>)
    ensures
        flow.deep_view() == seeking(
            known.deep_view(),
            context.deep_view(),
            middleware,
            path@,
            name@,
            answers.deep_view(),
            at as int,
        ),
{
    let ghost told = answers.deep_view();
    match known {
        Some(place) => Flow::Done(Sought { place: Some(place.clone()), used: at }),
        None => {
            if answers.len() <= at {
                return Flow::Ask(Request::IsDir(path.clone()));
            }
            assert(told[at as int] == answers@[at as int].deep_view());
            let is_dir: bool = match answers[at].flag() {
                Ok(is_dir) => is_dir,
                Err(error) => {
                    return Flow::Fail(error);
                },
            };
            if answers.len() <= at + 1 {
                return Flow::Ask(locate(context, middleware, path, name, is_dir));
            }
            assert(told[at + 1] == answers@[at + 1].deep_view());
            match answers[at + 1].places() {
                Ok(places) => Flow::Done(Sought { place: find_place(places), used: at + 2 }),
                Err(error) => Flow::Fail(error),
            }
        },
    }
}

/// What is known of an instance after its properties were written, what was left unwritten, and
/// how many answers were used.
pub struct Revised {
    pub meta: Meta,
    pub notice: Option<Notice>,
    pub used: usize,
}

/// What a [`Revised`] is.
pub struct RevisedView {
    pub meta: MetaView,
    pub notice: Option<NoticeView>,
    pub used: int,
}

impl DeepView for Revised {
    type V = RevisedView;

    open spec fn deep_view(&self) -> RevisedView {
        RevisedView {
            meta: self.meta.deep_view(),
            notice: self.notice.deep_view(),
            used: self.used as int,
        }
    }
}

/// Writes properties to the data file of an instance and notes the file in the source. Where no
/// place for a data file is found nothing is written, and a notice says so.
pub open spec fn data_revising(
    has_file: bool,
    class: Seq<char>,
    properties: Map<Seq<char>, Variant>,
    path: Seq<char>,
    name: Seq<char>,
    meta: MetaView,
    answers: Seq<ReplyView>,
    at: int,
) -> FlowView<RevisedView> {
    seeking(
        first_data(meta.source.relevants),
        meta.context,
        Middleware::InstanceData,
        path,
        name,
        answers,
        at,
    ).and_then(
        |sought: SoughtView|
            match sought.place {
                None => FlowView::Done(
                    RevisedView {
                        meta,
                        notice: Some(NoticeView::NoDataPlace(path)),
                        used: sought.used,
                    },
                ),
                Some(place) => asked_data(
                    answers,
                    sought.used,
                    RequestView::WriteData { has_file, class, properties, path: place, meta },
                ).and_then(
                    |data: Option<Seq<char>>|
                        FlowView::Done(
                            RevisedView {
                                meta: MetaView { source: meta.source.set_data(data), ..meta },
                                notice: None,
                                used: sought.used + 1,
                            },
                        ),
                ),
            },
    )
}

/// What is known of an instance whose file is at `file`.
pub open spec fn with_file(meta: MetaView, file: Seq<char>) -> MetaView {
    if first_file(meta.source.relevants) is Some {
        meta
    } else {
        MetaView { source: meta.source.add(EntryView::File(file)), ..meta }
    }
}

/// Writes the properties of an instance at `path` to its file, where its class has a kind of file,
/// and what that file does not hold to its data file; else all to the data file. Where no place
/// for the file is found nothing is written, and a notice says so.
pub open spec fn revising(
    path: Seq<char>,
    name: Seq<char>,
    class: Seq<char>,
    properties: Map<Seq<char>, Variant>,
    meta: MetaView,
    answers: Seq<ReplyView>,
    at: int,
) -> FlowView<RevisedView> {
    asked_kind(answers, at, RequestView::Middleware(class)).and_then(
        |kind: Option<Middleware>|
            match kind {
                None => data_revising(
                    false,
                    class,
                    properties,
                    path,
                    name,
                    meta,
                    answers,
                    at + 1,
                ),
                Some(middleware) => seeking(
                    first_file(meta.source.relevants),
                    meta.context,
                    middleware,
                    path,
                    name,
                    answers,
                    at + 1,
                ).and_then(
                    |sought: SoughtView|
                        match sought.place {
                            None => FlowView::Done(
                                RevisedView {
                                    meta,
                                    notice: Some(NoticeView::NoFilePlace(path)),
                                    used: sought.used,
                                },
                            ),
                            Some(file) => asked_rest(
                                answers,
                                sought.used,
                                RequestView::Write { middleware, properties, path: file },
                            ).and_then(
                                |rest: Map<Seq<char>, Variant>|
                                    data_revising(
                                        true,
                                        class,
                                        rest,
                                        path,
                                        name,
                                        with_file(meta, file),
                                        answers,
                                        sought.used + 1,
                                    ),
                            ),
                        },
                ),
            },
    )
}

/// Writes properties to the data file of an instance.
fn revise_data(
    has_file: bool,
    class: &String,
    properties: &Properties,
    path: &String,
    name: &String,
    meta: Meta,
    answers: &Vec<Reply>,
    at: usize,
) -> (flow: Flow<Revised>)
    ensures
        flow.deep_view() == data_revising(
            has_file,
            class@,
            properties@,
            path@,
            name@,
            meta.deep_view(),
            answers.deep_view(),
            at as int,
        ),
{
    let ghost told = answers.deep_view();
    let sought: Sought = match seek(
        meta.source.get_data(),
        &meta.context,
        Middleware::InstanceData,
        path,
        name,
        answers,
        at,
    ) {
        Flow::Ask(request) => {
            return Flow::Ask(request);
        },
        Flow::Fail(error) => {
            return Flow::Fail(error);
        },
        Flow::Done(sought) => sought,
    };
    let used: usize = sought.used;
    let place: String = match sought.place {
        Some(place) => place,
        None => {
            let notice = Some(Notice::NoDataPlace(path.clone()));
            return Flow::Done(Revised { meta, notice, used });
        },
    };
    if answers.len() <= used {
        return Flow::Ask(
            Request::WriteData {
                has_file,
                class: class.clone(),
                properties: properties.clone(),
                path: place,
                meta,
            },
        );
    }
    assert(told[used as int] == answers@[used as int].deep_view());
    match answers[used].data() {
        Ok(data) => {
            let mut meta: Meta = meta;
            meta.source.set_data(data.clone());
            Flow::Done(Revised { meta, notice: None, used: used + 1 })
        },
        Err(error) => Flow::Fail(error),
    }
}

/// Writes the properties of an instance.
pub fn revise(
    path: &String,
    name: &String,
    class: &String,
    properties: &Properties,
    meta: Meta,
    answers: &Vec<Reply>,
    at: usize,
) -> (flow: Flow<Revised>)
    ensures
        flow.deep_view() == revising(
            path@,
            name@,
            class@,
            properties@,
            meta.deep_view(),
            answers.deep_view(),
            at as int,
        ),
{
    let ghost told = answers.deep_view();
    if answers.len() <= at {
        return Flow::Ask(Request::Middleware(class.clone()));
    }
    assert(told[at as int] == answers@[at as int].deep_view());
    let kind: Option<Middleware> = match answers[at].kind() {
        Ok(kind) => kind,
        Err(error) => {
            return Flow::Fail(error);
        },
    };
    let middleware: Middleware = match kind {
        Some(middleware) => middleware,
        None => {
            return revise_data(false, class, properties, path, name, meta, answers, at + 1);
        },
    };
    let sought: Sought = match seek(
        meta.source.get_file(),
        &meta.context,
        middleware,
        path,
        name,
        answers,
        at + 1,
    ) {
        Flow::Ask(request) => {
            return Flow::Ask(request);
        },
        Flow::Fail(error) => {
            return Flow::Fail(error);
        },
        Flow::Done(sought) => sought,
    };
    let used: usize = sought.used;
    let file: String = match sought.place {
        Some(file) => file,
        None => {
            let notice = Some(Notice::NoFilePlace(path.clone()));
            return Flow::Done(Revised { meta, notice, used });
        },
    };
    let mut meta: Meta = meta;
    if meta.source.get_file().is_none() {
        meta.source.add_file(file.as_str());
    }
    if answers.len() <= used {
        return Flow::Ask(
            Request::Write { middleware, properties: properties.clone(), path: file },
        );
    }
    assert(told[used as int] == answers@[used as int].deep_view());
    match answers[used].rest() {
        Ok(rest) => revise_data(true, class, rest, path, name, meta, answers, used + 1),
        Err(error) => Flow::Fail(error),
    }
}

/// What an update changes of its instance.
pub struct Change {
    pub name: Option<String>,
    pub properties: Option<Properties>,
    pub meta: Option<Meta>,
}

/// What a [`Change`] is.
pub struct ChangeView {
    pub name: Option<Seq<char>>,
    pub properties: Option<Map<Seq<char>, Variant>>,
    pub meta: Option<MetaView>,
}

impl DeepView for Change {
    type V = ChangeView;

    open spec fn deep_view(&self) -> ChangeView {
        ChangeView {
            name: self.name.deep_view(),
            properties: self.properties.deep_view(),
            meta: self.meta.deep_view(),
        }
    }
}

impl ChangeView {
    /// No change.
    pub open spec fn nothing() -> ChangeView {
        ChangeView { name: None, properties: None, meta: None }
    }

    /// The instance after the change.
    pub open spec fn applied(self, instance: InstanceView) -> InstanceView {
        InstanceView {
            name: match self.name {
                Some(name) => name,
                None => instance.name,
            },
            properties: match self.properties {
                Some(properties) => properties,
                None => instance.properties,
            },
            meta: match self.meta {
                Some(meta) => meta,
                None => instance.meta,
            },
            ..instance
        }
    }
}

impl Change {
    /// No change.
    fn nothing() -> (change: Change)
        ensures
            change.deep_view() == ChangeView::nothing(),
    {
        Change { name: None, properties: None, meta: None }
    }
}

/// How an update ends, and what it left unwritten. What it changed before it failed stays changed.
pub struct End {
    pub result: Result<(), WriteError>,
    pub change: Change,
    pub notice: Option<Notice>,
}

/// What an [`End`] is.
pub struct EndView {
    pub result: Result<(), ErrorView>,
    pub change: ChangeView,
    pub notice: Option<NoticeView>,
}

impl DeepView for End {
    type V = EndView;

    open spec fn deep_view(&self) -> EndView {
        EndView {
            result: match self.result {
                Ok(_) => Ok(()),
                Err(error) => Err(error.deep_view()),
            },
            change: self.change.deep_view(),
            notice: self.notice.deep_view(),
        }
    }
}

/// The end of an update that failed.
pub open spec fn failed(error: ErrorView, change: ChangeView) -> FlowView<EndView> {
    FlowView::Done(EndView { result: Err(error), change, notice: None })
}

/// The end of an update that was carried out.
pub open spec fn succeeded(change: ChangeView) -> FlowView<EndView> {
    FlowView::Done(EndView { result: Ok(()), change, notice: None })
}

/// The same, with what was left unwritten.
pub open spec fn noting(flow: FlowView<EndView>, notice: Option<NoticeView>) -> FlowView<EndView> {
    match flow {
        FlowView::Done(end) => FlowView::Done(EndView { notice, ..end }),
        _ => flow,
    }
}

/// Goes on where the conversation came to something, and ends with the change so far where it
/// failed.
pub open spec fn or_end<T>(
    flow: FlowView<T>,
    change: ChangeView,
    next: spec_fn(T) -> FlowView<EndView>,
) -> FlowView<EndView> {
    match flow {
        FlowView::Ask(request) => FlowView::Ask(request),
        FlowView::Fail(error) => failed(error, change),
        FlowView::Done(value) => next(value),
    }
}

/// The end of an update that failed.
fn fail(error: WriteError, change: Change) -> (flow: Flow<End>)
    ensures
        flow.deep_view() == failed(error.deep_view(), change.deep_view()),
{
    Flow::Done(End { result: Err(error), change, notice: None })
}

/// The same, with what was left unwritten.
fn note(flow: Flow<End>, notice: Option<Notice>) -> (result: Flow<End>)
    ensures
        result.deep_view() == noting(flow.deep_view(), notice.deep_view()),
{
    match flow {
        Flow::Ask(request) => Flow::Ask(request),
        Flow::Fail(error) => Flow::Fail(error),
        Flow::Done(end) => Flow::Done(End { result: end.result, change: end.change, notice }),
    }
}

/// Updates the properties of an instance at `path` that now has this name and this meta.
pub open spec fn path_properties(
    path: Seq<char>,
    name: Seq<char>,
    class: Seq<char>,
    properties: Option<Map<Seq<char>, Variant>>,
    meta: MetaView,
    change: ChangeView,
    answers: Seq<ReplyView>,
    at: int,
) -> FlowView<EndView> {
    match properties {
        None => succeeded(ChangeView { meta: Some(meta), ..change }),
        Some(given) => {
            let properties = validated(given);
            or_end(
                revising(path, name, class, properties, meta, answers, at),
                change,
                |revised: RevisedView|
                    noting(
                        succeeded(
                            ChangeView {
                                properties: Some(properties),
                                meta: Some(revised.meta),
                                ..change
                            },
                        ),
                        revised.notice,
                    ),
            )
        },
    }
}

/// What is known of an instance at `path` that got another name.
pub open spec fn renamed_meta(
    meta: MetaView,
    path: Seq<char>,
    from: Seq<char>,
    to: Seq<char>,
) -> MetaView {
    MetaView {
        source: SourceView {
            inner: KindView::Path(renamed(path, from, to)),
            relevants: renamed_entries(meta.source.relevants, from, to),
        },
        ..meta
    }
}

/// Updates an instance that is at `path`. First its files get their new names, then its
/// properties are written.
pub open spec fn path_updating(
    instance: InstanceView,
    path: Seq<char>,
    name: Option<Seq<char>>,
    properties: Option<Map<Seq<char>, Variant>>,
    answers: Seq<ReplyView>,
) -> FlowView<EndView> {
    match name {
        None => path_properties(
            path,
            instance.name,
            instance.class,
            properties,
            instance.meta,
            ChangeView::nothing(),
            answers,
            0,
        ),
        Some(new) => {
            let requests = moves(instance.meta.source.relevants, instance.name, new);
            or_end(
                carrying_out(requests, answers, 0),
                ChangeView::nothing(),
                |moved: ()|
                    path_properties(
                        path,
                        new,
                        instance.class,
                        properties,
                        renamed_meta(instance.meta, path, instance.name, new),
                        ChangeView { name: Some(new), ..ChangeView::nothing() },
                        answers,
                        requests.len() as int,
                    ),
            )
        },
    }
}

/// Saves the project; the change stays whether or not that succeeds.
pub open spec fn saving(
    path: Seq<char>,
    project: NodeView,
    change: ChangeView,
    answers: Seq<ReplyView>,
    at: int,
) -> FlowView<EndView> {
    or_end(
        asked_done(answers, at, RequestView::Save { path, project }),
        change,
        |saved: ()| succeeded(change),
    )
}

/// The nodes below a node, with the one named `from` under the name `to`.
pub open spec fn renamed_child(node: NodeView, from: Seq<char>, to: Seq<char>) -> NodeView {
    NodeView { tree: node.tree.remove(from).insert(to, node.tree[from]), ..node }
}

/// Renames the node of an instance, where a name was given, and saves the project.
pub open spec fn project_renaming(
    own: Seq<char>,
    path: Seq<char>,
    node_path: Seq<Seq<char>>,
    name: Option<Seq<char>>,
    project: NodeView,
    meta: MetaView,
    change: ChangeView,
    answers: Seq<ReplyView>,
    at: int,
) -> FlowView<EndView> {
    match name {
        None => saving(path, project, ChangeView { meta: Some(meta), ..change }, answers, at),
        Some(new) => {
            let above = parent_path(node_path);
            match node_at(project, above) {
                None => failed(ErrorView::NoParentNode(above), change),
                Some(parent) => if !parent.tree.contains_key(own) {
                    failed(ErrorView::NotBelowParent(node_path), change)
                } else {
                    let inner = KindView::Project(new, path, parent.tree[own], above.push(new));
                    saving(
                        path,
                        with_node_at(project, above, renamed_child(parent, own, new)),
                        ChangeView {
                            name: Some(new),
                            meta: Some(
                                MetaView { source: SourceView { inner, ..meta.source }, ..meta },
                            ),
                            ..change
                        },
                        answers,
                        at,
                    )
                },
            }
        },
    }
}

/// A node whose instance is kept elsewhere, and which therefore says nothing of it.
pub open spec fn cleared(node: NodeView) -> NodeView {
    NodeView {
        properties: Map::empty(),
        attributes: None,
        tags: Seq::empty(),
        keep_unknowns: None,
        ..node
    }
}

/// A node with other properties; where it has no class its name is its class.
pub open spec fn rewritten(
    node: NodeView,
    name: Seq<char>,
    properties: Map<Seq<char>, Variant>,
) -> NodeView {
    let class = match node.class_name {
        Some(class) => class,
        None => name,
    };
    NodeView {
        properties: serialized(class, properties),
        tags: Seq::empty(),
        keep_unknowns: None,
        ..node
    }
}

/// Updates an instance that is the node `own` of a project. Its properties go to the node, or to
/// files, where the node says that they are there.
pub open spec fn project_updating(
    instance: InstanceView,
    own: Seq<char>,
    path: Seq<char>,
    node: NodeView,
    node_path: Seq<Seq<char>>,
    name: Option<Seq<char>>,
    properties: Option<Map<Seq<char>, Variant>>,
    answers: Seq<ReplyView>,
) -> FlowView<EndView> {
    let none = ChangeView::nothing();
    or_end(
        asked_project(answers, 0, RequestView::Load(path)),
        none,
        |project: NodeView|
            match properties {
                None => project_renaming(
                    own,
                    path,
                    node_path,
                    name,
                    project,
                    instance.meta,
                    none,
                    answers,
                    1,
                ),
                Some(given) => {
                    let properties = validated(given);
                    let change = ChangeView { properties: Some(properties), ..none };
                    match node.path {
                        Some(custom) => or_end(
                            revising(
                                custom_place(path, custom),
                                instance.name,
                                instance.class,
                                properties,
                                instance.meta,
                                answers,
                                1,
                            ),
                            none,
                            |revised: RevisedView|
                                noting(
                                    match node_at(project, node_path) {
                                        None => failed(ErrorView::NoNode(node_path), change),
                                        Some(found) => project_renaming(
                                            own,
                                            path,
                                            node_path,
                                            name,
                                            with_node_at(project, node_path, cleared(found)),
                                            revised.meta,
                                            change,
                                            answers,
                                            revised.used,
                                        ),
                                    },
                                    revised.notice,
                                ),
                        ),
                        None => match node_at(project, node_path) {
                            None => failed(ErrorView::NoNode(node_path), none),
                            Some(found) => project_renaming(
                                own,
                                path,
                                node_path,
                                name,
                                with_node_at(
                                    project,
                                    node_path,
                                    rewritten(found, own, properties),
                                ),
                                instance.meta,
                                change,
                                answers,
                                1,
                            ),
                        },
                    }
                },
            },
    )
}

/// Updates an instance.
pub open spec fn updating(
    instance: InstanceView,
    name: Option<Seq<char>>,
    properties: Option<Map<Seq<char>, Variant>>,
    answers: Seq<ReplyView>,
) -> FlowView<EndView> {
    match instance.meta.source.inner {
        KindView::Path(path) => path_updating(instance, path, name, properties, answers),
        KindView::Project(own, path, node, node_path) => project_updating(
            instance,
            own,
            path,
            node,
            node_path,
            name,
            properties,
            answers,
        ),
        KindView::Nowhere => succeeded(ChangeView::nothing()),
    }
}

/// Updates the properties of an instance at `path`.
fn update_path_properties(
    path: &String,
    name: &String,
    class: &String,
    properties: &Option<Properties>,
    meta: Meta,
    change: Change,
    answers: &Vec<Reply>,
    at: usize,
) -> (flow: Flow<End>)
    ensures
        flow.deep_view() == path_properties(
            path@,
            name@,
            class@,
            properties.deep_view(),
            meta.deep_view(),
            change.deep_view(),
            answers.deep_view(),
            at as int,
        ),
{
    let properties: Properties = match properties {
        None => {
            let change = Change { meta: Some(meta), ..change };
            return Flow::Done(End { result: Ok(()), change, notice: None });
        },
        Some(given) => validate_properties(given.clone()),
    };
    match revise(path, name, class, &properties, meta, answers, at) {
        Flow::Ask(request) => Flow::Ask(request),
        Flow::Fail(error) => fail(error, change),
        Flow::Done(revised) => {
            let change = Change {
                name: change.name,
                properties: Some(properties),
                meta: Some(revised.meta),
            };
            Flow::Done(End { result: Ok(()), change, notice: revised.notice })
        },
    }
}

/// Updates an instance that is at `path`.
fn update_path(
    instance: &Instance,
    path: &String,
    name: &Option<String>,
    properties: &Option<Properties>,
    answers: &Vec<Reply>,
) -> (flow: Flow<End>)
    ensures
        flow.deep_view() == path_updating(
            instance.deep_view(),
            path@,
            name.deep_view(),
            properties.deep_view(),
            answers.deep_view(),
        ),
{
    let new: &String = match name {
        None => {
            return update_path_properties(
                path,
                &instance.name,
                &instance.class,
                properties,
                instance.meta.clone(),
                Change::nothing(),
                answers,
                0,
            );
        },
        Some(new) => new,
    };
    let (relevants, requests) = rename_entries(
        &instance.meta.source.relevants,
        instance.name.as_str(),
        new.as_str(),
    );
    let count: usize = requests.len();
    match carry_out(requests, answers) {
        Flow::Ask(request) => {
            return Flow::Ask(request);
        },
        Flow::Fail(error) => {
            return fail(error, Change::nothing());
        },
        Flow::Done(_) => {},
    }
    let inner = SourceKind::Path(rename(path.as_str(), instance.name.as_str(), new.as_str()));
    let meta: Meta = instance.meta.clone().with_source(Source { inner, relevants });
    update_path_properties(
        path,
        new,
        &instance.class,
        properties,
        meta,
        Change { name: Some(new.clone()), properties: None, meta: None },
        answers,
        count,
    )
}

/// Saves the project.
fn save(
    path: String,
    project: Project,
    change: Change,
    answers: &Vec<Reply>,
    at: usize,
) -> (flow: Flow<End>)
    ensures
        flow.deep_view() == saving(
            path@,
            project.deep_view(),
            change.deep_view(),
            answers.deep_view(),
            at as int,
        ),
{
    if answers.len() <= at {
        return Flow::Ask(Request::Save { path, project });
    }
    assert(answers.deep_view()[at as int] == answers@[at as int].deep_view());
    match answers[at].done() {
        Ok(_) => Flow::Done(End { result: Ok(()), change, notice: None }),
        Err(error) => fail(error, change),
    }
}

/// Renames the node of an instance, where a name was given, and saves the project.
fn rename_node(
    own: &String,
    path: &String,
    node_path: &NodePath,
    name: &Option<String>,
    project: Project,
    meta: Meta,
    change: Change,
    answers: &Vec<Reply>,
    at: usize,
) -> (flow: Flow<End>)
    ensures
        flow.deep_view() == project_renaming(
            own@,
            path@,
            node_path.deep_view(),
            name.deep_view(),
            project.deep_view(),
            meta.deep_view(),
            change.deep_view(),
            answers.deep_view(),
            at as int,
        ),
{
    let new: &String = match name {
        None => {
            let change = Change { meta: Some(meta), ..change };
            return save(path.clone(), project, change, answers, at);
        },
        Some(new) => new,
    };
    let above: NodePath = node_path.parent();
    let mut project: Project = project;
    let mut parent: ProjectNode = match project.node.find(&above) {
        Some(parent) => parent.clone(),
        None => {
            return fail(WriteError::NoParentNode(above), change);
        },
    };
    let node: ProjectNode = match parent.remove_child(own) {
        Some(node) => node,
        None => {
            return fail(WriteError::NotBelowParent(node_path.clone()), change);
        },
    };
    parent.insert_child(new.clone(), node.clone());
    project.node.replace(&above, parent);
    let inner = SourceKind::Project(new.clone(), path.clone(), node, above.join(new.as_str()));
    let meta = Meta {
        source: Source { inner, relevants: meta.source.relevants },
        context: meta.context,
        keep_unknowns: meta.keep_unknowns,
    };
    let change = Change {
        name: Some(new.clone()),
        properties: change.properties,
        meta: Some(meta),
    };
    save(path.clone(), project, change, answers, at)
}

/// Updates an instance that is the node `own` of a project.
fn update_project(
    instance: &Instance,
    own: &String,
    path: &String,
    node: &ProjectNode,
    node_path: &NodePath,
    name: &Option<String>,
    properties: &Option<Properties>,
    answers: &Vec<Reply>,
) -> (flow: Flow<End>)
    ensures
        flow.deep_view() == project_updating(
            instance.deep_view(),
            own@,
            path@,
            node.deep_view(),
            node_path.deep_view(),
            name.deep_view(),
            properties.deep_view(),
            answers.deep_view(),
        ),
{
    if answers.len() <= 0 {
        return Flow::Ask(Request::Load(path.clone()));
    }
    assert(answers.deep_view()[0] == answers@[0].deep_view());
    let mut project: Project = match answers[0].project() {
        Ok(project) => Project { node: project.node.clone() },
        Err(error) => {
            return fail(error, Change::nothing());
        },
    };
    let meta: Meta = instance.meta.clone();
    let properties: Properties = match properties {
        None => {
            let change: Change = Change::nothing();
            return rename_node(own, path, node_path, name, project, meta, change, answers, 1);
        },
        Some(given) => validate_properties(given.clone()),
    };
    match node.path() {
        Some(custom) => {
            let place: String = custom_path(path.as_str(), custom.as_str());
            let revised: Revised = match revise(
                &place,
                &instance.name,
                &instance.class,
                &properties,
                meta,
                answers,
                1,
            ) {
                Flow::Ask(request) => {
                    return Flow::Ask(request);
                },
                Flow::Fail(error) => {
                    return fail(error, Change::nothing());
                },
                Flow::Done(revised) => revised,
            };
            let change = Change { name: None, properties: Some(properties), meta: None };
            let mut found: ProjectNode = match project.node.find(node_path) {
                Some(found) => found.clone(),
                None => {
                    return note(
                        fail(WriteError::NoNode(node_path.clone()), change),
                        revised.notice,
                    );
                },
            };
            let ghost before = found.deep_view();
            found.set_properties(Table::new());
            found.set_attributes(None);
            found.set_tags(Vec::new());
            found.set_keep_unknowns(None);
            assert(found.deep_view() =~= cleared(before));
            project.node.replace(node_path, found);
            note(
                rename_node(
                    own,
                    path,
                    node_path,
                    name,
                    project,
                    revised.meta,
                    change,
                    answers,
                    revised.used,
                ),
                revised.notice,
            )
        },
        None => {
            let mut found: ProjectNode = match project.node.find(node_path) {
                Some(found) => found.clone(),
                None => {
                    return fail(WriteError::NoNode(node_path.clone()), Change::nothing());
                },
            };
            let class: String = match found.class_name() {
                Some(class) => class.clone(),
                None => own.clone(),
            };
            let ghost before = found.deep_view();
            found.set_properties(serialize_properties(class.as_str(), properties.clone()));
            found.set_tags(Vec::new());
            found.set_keep_unknowns(None);
            assert(found.deep_view() =~= rewritten(before, own@, properties@));
            project.node.replace(node_path, found);
            let change = Change { name: None, properties: Some(properties), meta: None };
            rename_node(own, path, node_path, name, project, meta, change, answers, 1)
        },
    }
}

/// Updates an instance.
pub fn update_instance(
    instance: &Instance,
    name: &Option<String>,
    properties: &Option<Properties>,
    answers: &Vec<Reply>,
) -> (flow: Flow<End>)
    ensures
        flow.deep_view() == updating(
            instance.deep_view(),
            name.deep_view(),
            properties.deep_view(),
            answers.deep_view(),
        ),
{
    match instance.meta.source.get() {
        SourceKind::Path(path) => update_path(instance, path, name, properties, answers),
        SourceKind::Project(own, path, node, node_path) => update_project(
            instance,
            own,
            path,
            node,
            node_path,
            name,
            properties,
            answers,
        ),
        SourceKind::Nowhere => Flow::Done(
            End { result: Ok(()), change: Change::nothing(), notice: None },
        ),
    }
}

/// An update under way. It holds the tree until it stops.
pub struct Update {
    tree: Tree,
    id: Ref,
    name: Option<String>,
    properties: Option<Properties>,
    answers: Vec<Reply>,
}

/// What an [`Update`] is.
pub struct UpdateView {
    pub tree: TreeView,
    pub id: Ref,
    pub name: Option<Seq<char>>,
    pub properties: Option<Map<Seq<char>, Variant>>,
    pub answers: Seq<ReplyView>,
}

impl DeepView for Update {
    type V = UpdateView;

    closed spec fn deep_view(&self) -> UpdateView {
        UpdateView {
            tree: self.tree.deep_view(),
            id: self.id,
            name: self.name.deep_view(),
            properties: self.properties.deep_view(),
            answers: self.answers.deep_view(),
        }
    }
}

/// Where an update stands after the answers so far.
pub open spec fn update_step(update: UpdateView) -> StepView<UpdateView> {
    let instance = update.tree[update.id];
    match updating(instance, update.name, update.properties, update.answers) {
        FlowView::Ask(request) => StepView::Ask(request, update),
        FlowView::Fail(error) => StepView::Stop(Err(error), update.tree, None),
        FlowView::Done(end) => StepView::Stop(
            end.result,
            update.tree.insert(update.id, end.change.applied(instance)),
            end.notice,
        ),
    }
}

/// The start of an update.
pub open spec fn update_started(
    id: Ref,
    name: Option<Seq<char>>,
    properties: Option<Map<Seq<char>, Variant>>,
    tree: TreeView,
) -> StepView<UpdateView> {
    if tree.contains_key(id) {
        update_step(UpdateView { tree, id, name, properties, answers: Seq::empty() })
    } else {
        StepView::Stop(Ok(()), tree, Some(NoticeView::NoInstance(id)))
    }
}

/// The update after a reply.
pub open spec fn update_resumed(update: UpdateView, reply: ReplyView) -> StepView<UpdateView> {
    update_step(UpdateView { answers: update.answers.push(reply), ..update })
}

/// Starts to update an instance of the tree.
///
/// Where the tree has no such instance nothing happens but that a notice says so. A client cannot
/// change the class of an instance, nor what is known of it.
pub fn apply_update(snapshot: UpdatedSnapshot, tree: Tree) -> (step: Step<Update>)
    requires
        tree.deep_view().contains_key(snapshot.id) ==> snapshot.class is None && snapshot.meta
            is None && !(tree.deep_view()[snapshot.id].meta.source.inner is Nowhere),
    ensures
        step.deep_view() == update_started(
            snapshot.id,
            snapshot.name.deep_view(),
            snapshot.properties.deep_view(),
            tree.deep_view(),
        ),
        step matches Step::Ask(_, update) ==> update.deep_view().tree.contains_key(
            update.deep_view().id,
        ),
{
    if !tree.contains(snapshot.id) {
        return Step::Stop(Ok(()), tree, Some(Notice::NoInstance(snapshot.id)));
    }
    let update = Update {
        tree,
        id: snapshot.id,
        name: snapshot.name,
        properties: snapshot.properties,
        answers: Vec::new(),
    };
    assert(update.answers.deep_view() =~= Seq::empty());
    update.advance()
}

impl Update {
    /// Goes as far as the answers lead.
    fn advance(self) -> (step: Step<Update>)
        requires
            self.deep_view().tree.contains_key(self.deep_view().id),
        ensures
            step.deep_view() == update_step(self.deep_view()),
            step matches Step::Ask(_, update) ==> update == self,
    {
        let flow: Flow<End> = match self.tree.get_instance(self.id) {
            Some(instance) => update_instance(
                instance,
                &self.name,
                &self.properties,
                &self.answers,
            ),
            None => Flow::Fail(WriteError::Mismatch),
        };
        match flow {
            Flow::Ask(request) => Step::Ask(request, self),
            Flow::Fail(error) => Step::Stop(Err(error), self.tree, None),
            Flow::Done(end) => {
                let ghost before = self.tree.deep_view();
                let id: Ref = self.id;
                let mut tree: Tree = self.tree;
                match end.change.name {
                    Some(name) => {
                        tree.set_name(id, name);
                    },
                    None => {},
                }
                match end.change.properties {
                    Some(properties) => {
                        tree.set_properties(id, properties);
                    },
                    None => {},
                }
                match end.change.meta {
                    Some(meta) => {
                        tree.update_meta(id, meta);
                    },
                    None => {},
                }
                assert(tree.deep_view() =~= before.insert(
                    id,
                    end.change.deep_view().applied(before[id]),
                ));
                Step::Stop(end.result, tree, end.notice)
            },
        }
    }

    /// Goes on with the answer to the request that was asked.
    pub fn resume(self, reply: Reply) -> (step: Step<Update>)
        requires
            self.deep_view().tree.contains_key(self.deep_view().id),
        ensures
            step.deep_view() == update_resumed(self.deep_view(), reply.deep_view()),
            step matches Step::Ask(_, update) ==> update.deep_view().tree.contains_key(
                update.deep_view().id,
            ),
    {
        let ghost told = self.answers.deep_view();
        let mut answers: Vec<Reply> = self.answers;
        answers.push(reply);
        assert(answers.deep_view() =~= told.push(reply.deep_view()));
        let update = Update {
            tree: self.tree,
            id: self.id,
            name: self.name,
            properties: self.properties,
            answers,
        };
        update.advance()
    }
}

} // verus!
