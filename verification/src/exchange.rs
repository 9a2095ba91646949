//! What an operation asks of the world outside and what it is told.
//!
//! An operation on the tree never touches a file itself. It asks, one [`Request`] at a time, and
//! goes on with each [`Reply`].
use crate::meta::{Meta, MetaView, Middleware};
use crate::node::{NodePath, NodeView, Project};
use crate::tree::{Tree, TreeView};
use crate::value::Properties;
use rbx_dom_weak::types::{Ref, Variant};
use vstd::prelude::*;

verus! {

/// Something to find out or to do outside.
pub enum Request {
    /// Whether a path is a file. Answered by [`Reply::Flag`].
    IsFile(String),
    /// Whether a path is a folder. Answered by [`Reply::Flag`].
    IsDir(String),
    /// Whether a path is there. Answered by [`Reply::Flag`].
    Exists(String),
    /// Make a folder. Answered by [`Reply::Done`].
    WriteDir(String),
    /// Move the first path to the second. Answered by [`Reply::Done`].
    Rename(String, String),
    /// Remove a path. Answered by [`Reply::Done`].
    Remove(String),
    /// The kind of file that holds instances of a class. Answered by [`Reply::Kind`].
    Middleware(String),
    /// Of each rule, whether it matches a path. Answered by [`Reply::Flags`].
    Matches { rules: Vec<u64>, path: String },
    /// Of each rule, whether it matches a path within an instance's folder. Answered by
    /// [`Reply::Flags`].
    MatchesChild { rules: Vec<u64>, path: String },
    /// The name of the instance at a path, as a rule reads it. Answered by [`Reply::Name`].
    NameBy { rule: u64, path: String },
    /// Where a rule puts the file of an instance. Answered by [`Reply::Place`].
    Locate { rule: u64, path: String, name: String, is_dir: bool },
    /// Of each rule, where it puts the file of an instance. Answered by [`Reply::Places`].
    LocateEach { rules: Vec<u64>, path: String, name: String, is_dir: bool },
    /// Write the properties that a file of this kind holds. Answered by [`Reply::Rest`] with the
    /// others.
    Write { middleware: Middleware, properties: Properties, path: String },
    /// Write a data file. Answered by [`Reply::Data`] with the path of the file, if one is needed.
    WriteData {
        has_file: bool,
        class: String,
        properties: Properties,
        path: String,
        meta: Meta,
    },
    /// Read a project file. Answered by [`Reply::Project`].
    Load(String),
    /// Write a project file. Answered by [`Reply::Done`].
    Save { path: String, project: Project },
}

/// What a [`Request`] is.
pub enum RequestView {
    IsFile(Seq<char>),
    IsDir(Seq<char>),
    Exists(Seq<char>),
    WriteDir(Seq<char>),
    Rename(Seq<char>, Seq<char>),
    Remove(Seq<char>),
    Middleware(Seq<char>),
    Matches { rules: Seq<u64>, path: Seq<char> },
    MatchesChild { rules: Seq<u64>, path: Seq<char> },
    NameBy { rule: u64, path: Seq<char> },
    Locate { rule: u64, path: Seq<char>, name: Seq<char>, is_dir: bool },
    LocateEach { rules: Seq<u64>, path: Seq<char>, name: Seq<char>, is_dir: bool },
    Write { middleware: Middleware, properties: Map<Seq<char>, Variant>, path: Seq<char> },
    WriteData {
        has_file: bool,
        class: Seq<char>,
        properties: Map<Seq<char>, Variant>,
        path: Seq<char>,
        meta: MetaView,
    },
    Load(Seq<char>),
    Save { path: Seq<char>, project: NodeView },
}

impl DeepView for Request {
    type V = RequestView;

    open spec fn deep_view(&self) -> RequestView {
        match *self {
            Request::IsFile(path) => RequestView::IsFile(path@),
            Request::IsDir(path) => RequestView::IsDir(path@),
            Request::Exists(path) => RequestView::Exists(path@),
            Request::WriteDir(path) => RequestView::WriteDir(path@),
            Request::Rename(from, to) => RequestView::Rename(from@, to@),
            Request::Remove(path) => RequestView::Remove(path@),
            Request::Middleware(class) => RequestView::Middleware(class@),
            Request::Matches { rules, path } => RequestView::Matches { rules: rules@, path: path@ },
            Request::MatchesChild { rules, path } => RequestView::MatchesChild {
                rules: rules@,
                path: path@,
            },
            Request::NameBy { rule, path } => RequestView::NameBy { rule, path: path@ },
            Request::Locate { rule, path, name, is_dir } => RequestView::Locate {
                rule,
                path: path@,
                name: name@,
                is_dir,
            },
            Request::LocateEach { rules, path, name, is_dir } => RequestView::LocateEach {
                rules: rules@,
                path: path@,
                name: name@,
                is_dir,
            },
            Request::Write { middleware, properties, path } => RequestView::Write {
                middleware,
                properties: properties@,
                path: path@,
            },
            Request::WriteData {
                has_file,
                class,
                properties,
                path,
                meta,
            } => RequestView::WriteData {
                has_file,
                class: class@,
                properties: properties@,
                path: path@,
                meta: meta.deep_view(),
            },
            Request::Load(path) => RequestView::Load(path@),
            Request::Save { path, project } => RequestView::Save {
                path: path@,
                project: project.deep_view(),
            },
        }
    }
}

/// What came of a [`Request`].
pub enum Reply {
    Flag(bool),
    Flags(Vec<bool>),
    Done,
    Kind(Option<Middleware>),
    Name(String),
    Place(Option<String>),
    Places(Vec<Option<String>>),
    Rest(Properties),
    Data(Option<String>),
    Project(Project),
    /// The request failed, for this reason.
    Failed(String),
}

/// What a [`Reply`] is.
pub enum ReplyView {
    Flag(bool),
    Flags(Seq<bool>),
    Done,
    Kind(Option<Middleware>),
    Name(Seq<char>),
    Place(Option<Seq<char>>),
    Places(Seq<Option<Seq<char>>>),
    Rest(Map<Seq<char>, Variant>),
    Data(Option<Seq<char>>),
    Project(NodeView),
    Failed(Seq<char>),
}

impl DeepView for Reply {
    type V = ReplyView;

    open spec fn deep_view(&self) -> ReplyView {
        match *self {
            Reply::Flag(flag) => ReplyView::Flag(flag),
            Reply::Flags(flags) => ReplyView::Flags(flags@),
            Reply::Done => ReplyView::Done,
            Reply::Kind(kind) => ReplyView::Kind(kind),
            Reply::Name(name) => ReplyView::Name(name@),
            Reply::Place(place) => ReplyView::Place(place.deep_view()),
            Reply::Places(places) => ReplyView::Places(places.deep_view()),
            Reply::Rest(rest) => ReplyView::Rest(rest@),
            Reply::Data(path) => ReplyView::Data(path.deep_view()),
            Reply::Project(project) => ReplyView::Project(project.deep_view()),
            Reply::Failed(reason) => ReplyView::Failed(reason@),
        }
    }
}

/// Why an operation gave up.
pub enum WriteError {
    /// A request failed, for this reason.
    Failed(String),
    /// A reply does not answer the request.
    Mismatch,
    /// No rule matches a path.
    NoSyncRule(String),
    /// No rule says where the file of the instance at a path goes.
    NoFilePath(String),
    /// No rule says where the data file of the instance at a path goes.
    NoDataPath(String),
    /// The project has no node at a path.
    NoNode(NodePath),
    /// The project has no node at a path that should lead to a parent.
    NoParentNode(NodePath),
    /// The node at a path is not below its parent.
    NotBelowParent(NodePath),
    /// The project, as it was loaded, has no node for an instance.
    NotInProject(Ref, Project),
    /// There is no instance above one whose files were removed.
    NoParent,
}

/// What a [`WriteError`] is.
pub enum ErrorView {
    Failed(Seq<char>),
    Mismatch,
    NoSyncRule(Seq<char>),
    NoFilePath(Seq<char>),
    NoDataPath(Seq<char>),
    NoNode(Seq<Seq<char>>),
    NoParentNode(Seq<Seq<char>>),
    NotBelowParent(Seq<Seq<char>>),
    NotInProject(Ref, NodeView),
    NoParent,
}

impl DeepView for WriteError {
    type V = ErrorView;

    open spec fn deep_view(&self) -> ErrorView {
        match *self {
            WriteError::Failed(reason) => ErrorView::Failed(reason@),
            WriteError::Mismatch => ErrorView::Mismatch,
            WriteError::NoSyncRule(path) => ErrorView::NoSyncRule(path@),
            WriteError::NoFilePath(path) => ErrorView::NoFilePath(path@),
            WriteError::NoDataPath(path) => ErrorView::NoDataPath(path@),
            WriteError::NoNode(path) => ErrorView::NoNode(path.deep_view()),
            WriteError::NoParentNode(path) => ErrorView::NoParentNode(path.deep_view()),
            WriteError::NotBelowParent(path) => ErrorView::NotBelowParent(path.deep_view()),
            WriteError::NotInProject(id, project) => ErrorView::NotInProject(
                id,
                project.deep_view(),
            ),
            WriteError::NoParent => ErrorView::NoParent,
        }
    }
}

/// What an operation left undone without giving up.
pub enum Notice {
    /// The tree does not have the instance that was to be added to, updated or removed.
    NoInstance(Ref),
    /// No place was found for the file of the instance at a path.
    NoFilePlace(String),
    /// No place was found for the data file of the instance at a path.
    NoDataPlace(String),
}

/// What a [`Notice`] is.
pub enum NoticeView {
    NoInstance(Ref),
    NoFilePlace(Seq<char>),
    NoDataPlace(Seq<char>),
}

impl DeepView for Notice {
    type V = NoticeView;

    open spec fn deep_view(&self) -> NoticeView {
        match *self {
            Notice::NoInstance(id) => NoticeView::NoInstance(id),
            Notice::NoFilePlace(path) => NoticeView::NoFilePlace(path@),
            Notice::NoDataPlace(path) => NoticeView::NoDataPlace(path@),
        }
    }
}

/// A conversation: what it asks next, why it gave up, or what it came to.
pub enum Flow<T> {
    Ask(Request),
    Fail(WriteError),
    Done(T),
}

/// What a [`Flow`] is.
pub enum FlowView<T> {
    Ask(RequestView),
    Fail(ErrorView),
    Done(T),
}

impl<T: DeepView> DeepView for Flow<T> {
    type V = FlowView<T::V>;

    open spec fn deep_view(&self) -> FlowView<T::V> {
        match *self {
            Flow::Ask(request) => FlowView::Ask(request.deep_view()),
            Flow::Fail(error) => FlowView::Fail(error.deep_view()),
            Flow::Done(value) => FlowView::Done(value.deep_view()),
        }
    }
}

impl<T> FlowView<T> {
    /// The conversation, continued with what it came to.
    pub open spec fn and_then<U>(self, next: spec_fn(T) -> FlowView<U>) -> FlowView<U> {
        match self {
            FlowView::Ask(request) => FlowView::Ask(request),
            FlowView::Fail(error) => FlowView::Fail(error),
            FlowView::Done(value) => next(value),
        }
    }
}

/// The error that a reply amounts to where it does not answer the request.
pub open spec fn refusal(reply: ReplyView) -> ErrorView {
    match reply {
        ReplyView::Failed(reason) => ErrorView::Failed(reason),
        _ => ErrorView::Mismatch,
    }
}

/// The error that a reply amounts to where it does not answer the request.
pub(crate) fn refuse(reply: &Reply) -> (error: WriteError)
    ensures
        error.deep_view() == refusal(reply.deep_view()),
{
    match reply {
        Reply::Failed(reason) => WriteError::Failed(reason.clone()),
        _ => WriteError::Mismatch,
    }
}

/// Asks for a flag with the answer at a place in the conversation.
pub open spec fn asked_flag(
    answers: Seq<ReplyView>,
    at: int,
    request: RequestView,
) -> FlowView<bool> {
    if answers.len() <= at {
        FlowView::Ask(request)
    } else {
        match answers[at] {
            ReplyView::Flag(flag) => FlowView::Done(flag),
            other => FlowView::Fail(refusal(other)),
        }
    }
}

/// Asks for flags with the answer at a place in the conversation.
pub open spec fn asked_flags(
    answers: Seq<ReplyView>,
    at: int,
    request: RequestView,
) -> FlowView<Seq<bool>> {
    if answers.len() <= at {
        FlowView::Ask(request)
    } else {
        match answers[at] {
            ReplyView::Flags(flags) => FlowView::Done(flags),
            other => FlowView::Fail(refusal(other)),
        }
    }
}

/// Asks for a kind of file with the answer at a place in the conversation.
pub open spec fn asked_kind(
    answers: Seq<ReplyView>,
    at: int,
    request: RequestView,
) -> FlowView<Option<Middleware>> {
    if answers.len() <= at {
        FlowView::Ask(request)
    } else {
        match answers[at] {
            ReplyView::Kind(kind) => FlowView::Done(kind),
            other => FlowView::Fail(refusal(other)),
        }
    }
}

/// Asks for a name with the answer at a place in the conversation.
pub open spec fn asked_name(
    answers: Seq<ReplyView>,
    at: int,
    request: RequestView,
) -> FlowView<Seq<char>> {
    if answers.len() <= at {
        FlowView::Ask(request)
    } else {
        match answers[at] {
            ReplyView::Name(name) => FlowView::Done(name),
            other => FlowView::Fail(refusal(other)),
        }
    }
}

/// Asks for a place with the answer at a place in the conversation.
pub open spec fn asked_place(
    answers: Seq<ReplyView>,
    at: int,
    request: RequestView,
) -> FlowView<Option<Seq<char>>> {
    if answers.len() <= at {
        FlowView::Ask(request)
    } else {
        match answers[at] {
            ReplyView::Place(place) => FlowView::Done(place),
            other => FlowView::Fail(refusal(other)),
        }
    }
}

/// Asks for places with the answer at a place in the conversation.
pub open spec fn asked_places(
    answers: Seq<ReplyView>,
    at: int,
    request: RequestView,
) -> FlowView<Seq<Option<Seq<char>>>> {
    if answers.len() <= at {
        FlowView::Ask(request)
    } else {
        match answers[at] {
            ReplyView::Places(places) => FlowView::Done(places),
            other => FlowView::Fail(refusal(other)),
        }
    }
}

/// Asks for properties with the answer at a place in the conversation.
pub open spec fn asked_rest(
    answers: Seq<ReplyView>,
    at: int,
    request: RequestView,
) -> FlowView<Map<Seq<char>, Variant>> {
    if answers.len() <= at {
        FlowView::Ask(request)
    } else {
        match answers[at] {
            ReplyView::Rest(rest) => FlowView::Done(rest),
            other => FlowView::Fail(refusal(other)),
        }
    }
}

/// Asks for a data file with the answer at a place in the conversation.
pub open spec fn asked_data(
    answers: Seq<ReplyView>,
    at: int,
    request: RequestView,
) -> FlowView<Option<Seq<char>>> {
    if answers.len() <= at {
        FlowView::Ask(request)
    } else {
        match answers[at] {
            ReplyView::Data(data) => FlowView::Done(data),
            other => FlowView::Fail(refusal(other)),
        }
    }
}

/// Asks for a project with the answer at a place in the conversation.
pub open spec fn asked_project(
    answers: Seq<ReplyView>,
    at: int,
    request: RequestView,
) -> FlowView<NodeView> {
    if answers.len() <= at {
        FlowView::Ask(request)
    } else {
        match answers[at] {
            ReplyView::Project(project) => FlowView::Done(project),
            other => FlowView::Fail(refusal(other)),
        }
    }
}

/// Asks for something to be done with the answer at a place in the conversation.
pub open spec fn asked_done(
    answers: Seq<ReplyView>,
    at: int,
    request: RequestView,
) -> FlowView<()> {
    if answers.len() <= at {
        FlowView::Ask(request)
    } else {
        match answers[at] {
            ReplyView::Done => FlowView::Done(()),
            other => FlowView::Fail(refusal(other)),
        }
    }
}

impl Reply {
    /// The reply as a flag.
    pub(crate) fn flag(&self) -> (result: Result<bool, WriteError>)
        ensures
            match result {
                Ok(flag) => self.deep_view() == ReplyView::Flag(flag),
                Err(error) => !(self.deep_view() is Flag) && error.deep_view() == refusal(
                    self.deep_view(),
                ),
            },
    {
        match self {
            Reply::Flag(flag) => Ok(*flag),
            other => Err(refuse(other)),
        }
    }

    /// The reply as flags.
    pub(crate) fn flags(&self) -> (result: Result<&Vec<bool>, WriteError>)
        ensures
            match result {
                Ok(flags) => self.deep_view() == ReplyView::Flags(flags@),
                Err(error) => !(self.deep_view() is Flags) && error.deep_view() == refusal(
                    self.deep_view(),
                ),
            },
    {
        match self {
            Reply::Flags(flags) => Ok(flags),
            other => Err(refuse(other)),
        }
    }

    /// The reply as a kind of file.
    pub(crate) fn kind(&self) -> (result: Result<Option<Middleware>, WriteError>)
        ensures
            match result {
                Ok(kind) => self.deep_view() == ReplyView::Kind(kind),
                Err(error) => !(self.deep_view() is Kind) && error.deep_view() == refusal(
                    self.deep_view(),
                ),
            },
    {
        match self {
            Reply::Kind(kind) => Ok(*kind),
            other => Err(refuse(other)),
        }
    }

    /// The reply as a name.
    pub(crate) fn name(&self) -> (result: Result<&String, WriteError>)
        ensures
            match result {
                Ok(name) => self.deep_view() == ReplyView::Name(name@),
                Err(error) => !(self.deep_view() is Name) && error.deep_view() == refusal(
                    self.deep_view(),
                ),
            },
    {
        match self {
            Reply::Name(name) => Ok(name),
            other => Err(refuse(other)),
        }
    }

    /// The reply as a place.
    pub(crate) fn place(&self) -> (result: Result<&Option<String>, WriteError>)
        ensures
            match result {
                Ok(place) => self.deep_view() == ReplyView::Place(place.deep_view()),
                Err(error) => !(self.deep_view() is Place) && error.deep_view() == refusal(
                    self.deep_view(),
                ),
            },
    {
        match self {
            Reply::Place(place) => Ok(place),
            other => Err(refuse(other)),
        }
    }

    /// The reply as places.
    pub(crate) fn places(&self) -> (result: Result<&Vec<Option<String>>, WriteError>)
        ensures
            match result {
                Ok(places) => self.deep_view() == ReplyView::Places(places.deep_view()),
                Err(error) => !(self.deep_view() is Places) && error.deep_view() == refusal(
                    self.deep_view(),
                ),
            },
    {
        match self {
            Reply::Places(places) => Ok(places),
            other => Err(refuse(other)),
        }
    }

    /// The reply as properties.
    pub(crate) fn rest(&self) -> (result: Result<&Properties, WriteError>)
        ensures
            match result {
                Ok(rest) => self.deep_view() == ReplyView::Rest(rest@),
                Err(error) => !(self.deep_view() is Rest) && error.deep_view() == refusal(
                    self.deep_view(),
                ),
            },
    {
        match self {
            Reply::Rest(rest) => Ok(rest),
            other => Err(refuse(other)),
        }
    }

    /// The reply as a data file.
    pub(crate) fn data(&self) -> (result: Result<&Option<String>, WriteError>)
        ensures
            match result {
                Ok(data) => self.deep_view() == ReplyView::Data(data.deep_view()),
                Err(error) => !(self.deep_view() is Data) && error.deep_view() == refusal(
                    self.deep_view(),
                ),
            },
    {
        match self {
            Reply::Data(data) => Ok(data),
            other => Err(refuse(other)),
        }
    }

    /// The reply as a project.
    pub(crate) fn project(&self) -> (result: Result<&Project, WriteError>)
        ensures
            match result {
                Ok(project) => self.deep_view() == ReplyView::Project(project.deep_view()),
                Err(error) => !(self.deep_view() is Project) && error.deep_view() == refusal(
                    self.deep_view(),
                ),
            },
    {
        match self {
            Reply::Project(project) => Ok(project),
            other => Err(refuse(other)),
        }
    }

    /// The reply as a sign that the request was carried out.
    pub(crate) fn done(&self) -> (result: Result<(), WriteError>)
        ensures
            match result {
                Ok(_) => self.deep_view() == ReplyView::Done,
                Err(error) => !(self.deep_view() is Done) && error.deep_view() == refusal(
                    self.deep_view(),
                ),
            },
    {
        match self {
            Reply::Done => Ok(()),
            other => Err(refuse(other)),
        }
    }
}

/// Where an operation stands: it asks and waits, or it has stopped, hands the tree back and says
/// what it left undone.
pub enum Step<M> {
    Ask(Request, M),
    Stop(Result<(), WriteError>, Tree, Option<Notice>),
}

/// What a [`Step`] is.
pub enum StepView<M> {
    Ask(RequestView, M),
    Stop(Result<(), ErrorView>, TreeView, Option<NoticeView>),
}

impl<M: DeepView> DeepView for Step<M> {
    type V = StepView<M::V>;

    open spec fn deep_view(&self) -> StepView<M::V> {
        match *self {
            Step::Ask(request, operation) => StepView::Ask(
                request.deep_view(),
                operation.deep_view(),
            ),
            Step::Stop(result, tree, notice) => StepView::Stop(
                match result {
                    Ok(_) => Ok(()),
                    Err(error) => Err(error.deep_view()),
                },
                tree.deep_view(),
                notice.deep_view(),
            ),
        }
    }
}

} // verus!
