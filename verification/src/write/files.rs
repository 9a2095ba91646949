//! Giving a new instance its files.
use crate::exchange::{
    asked_data, asked_done, asked_flag, asked_flags, asked_kind, asked_name, asked_place,
    asked_places, asked_rest, ErrorView, Flow, FlowView, Reply, ReplyView, Request, RequestView,
    WriteError,
};
use crate::meta::{
    first_data, numbers_of_type, rule_numbers, Context, EntryView, Meta, MetaView, Middleware,
    Source, SourceView, SyncRule,
};
use crate::path::{join, joined, with_file_name, with_name};
use crate::snapshot::{Snapshot, SnapshotView};
use crate::value::Properties;
use rbx_dom_weak::types::{Ref, Variant};
use vstd::prelude::*;

verus! {

/// The first rule that matches.
pub open spec fn first_match(rules: Seq<u64>, flags: Seq<bool>) -> Option<u64>
    decreases rules.len(),
{
    if rules.len() == 0 || flags.len() == 0 {
        None
    } else if flags[0] {
        Some(rules[0])
    } else {
        first_match(rules.skip(1), flags.skip(1))
    }
}

/// The first rule that matches.
pub fn find_match(rules: &Vec<u64>, flags: &Vec<bool>) -> (rule: Option<u64>)
    ensures
        rule == first_match(rules@, flags@),
{
    let mut i: usize = 0;
    assert(rules@.skip(0) == rules@);
    assert(flags@.skip(0) == flags@);
    while i < rules.len() && i < flags.len()
        invariant
            i <= rules@.len(),
            i <= flags@.len(),
            first_match(rules@, flags@) == first_match(
                rules@.skip(i as int),
                flags@.skip(i as int),
            ),
        decreases rules@.len() - i,
    {
        assert(rules@.skip(i as int).skip(1) == rules@.skip(i + 1));
        assert(flags@.skip(i as int).skip(1) == flags@.skip(i + 1));
        if flags[i] {
            return Some(rules[i]);
        }
        i = i + 1;
    }
    None
}

/// The first place that a rule found.
pub open spec fn first_place(places: Seq<Option<Seq<char>>>) -> Option<Seq<char>>
    decreases places.len(),
{
    if places.len() == 0 {
        None
    } else if places[0] is Some {
        places[0]
    } else {
        first_place(places.skip(1))
    }
}

/// The first place that a rule found.
pub fn find_place(places: &Vec<Option<String>>) -> (place: Option<String>)
    ensures
        place.deep_view() == first_place(places.deep_view()),
{
    let mut i: usize = 0;
    let ghost all = places.deep_view();
    assert(all.skip(0) == all);
    while i < places.len()
        invariant
            i <= places@.len(),
            all == places.deep_view(),
            first_place(all) == first_place(all.skip(i as int)),
        decreases places@.len() - i,
    {
        assert(all.skip(i as int)[0] == places@[i as int].deep_view());
        assert(all.skip(i as int).skip(1) == all.skip(i + 1));
        match &places[i] {
            Some(place) => {
                return Some(place.clone());
            },
            None => {},
        }
        i = i + 1;
    }
    None
}

/// The question where the rules for a kind of file put the file of an instance.
pub open spec fn locating(
    context: Seq<SyncRule>,
    middleware: Middleware,
    path: Seq<char>,
    name: Seq<char>,
    is_dir: bool,
) -> RequestView {
    RequestView::LocateEach { rules: numbers_of_type(context, middleware), path, name, is_dir }
}

/// The question where the rules for a kind of file put the file of an instance.
pub(crate) fn locate(
    context: &Context,
    middleware: Middleware,
    path: &String,
    name: &String,
    is_dir: bool,
) -> (request: Request)
    ensures
        request.deep_view() == locating(context.deep_view(), middleware, path@, name@, is_dir),
{
    Request::LocateEach {
        rules: context.sync_rules_of_type(middleware),
        path: path.clone(),
        name: name.clone(),
        is_dir,
    }
}

/// Where the files of an instance's children go, and what the instance's source is then.
pub struct Housing {
    /// The folder for the children.
    pub path: String,
    /// The source of the instance.
    pub source: Source,
    /// How many answers were used.
    pub used: usize,
}

/// What a [`Housing`] is.
pub struct HousingView {
    pub path: Seq<char>,
    pub source: SourceView,
    pub used: int,
}

impl DeepView for Housing {
    type V = HousingView;

    open spec fn deep_view(&self) -> HousingView {
        HousingView {
            path: self.path@,
            source: self.source.deep_view(),
            used: self.used as int,
        }
    }
}

/// Moves the file of an instance, and its data file, into a new folder.
pub open spec fn moving(
    path: Seq<char>,
    folder: Seq<char>,
    file: Seq<char>,
    data: Option<(Seq<char>, Seq<char>)>,
    answers: Seq<ReplyView>,
    at: int,
) -> FlowView<HousingView> {
    asked_done(answers, at, RequestView::WriteDir(folder)).and_then(
        |made: ()|
            asked_done(answers, at + 1, RequestView::Rename(path, file)).and_then(
                |moved: ()|
                    match data {
                        None => FlowView::Done(
                            HousingView {
                                path: folder,
                                source: SourceView::child_file(folder, file),
                                used: at + 2,
                            },
                        ),
                        Some((from, to)) => asked_done(
                            answers,
                            at + 2,
                            RequestView::Rename(from, to),
                        ).and_then(
                            |moved: ()|
                                FlowView::Done(
                                    HousingView {
                                        path: folder,
                                        source: SourceView::child_file(folder, file).add(
                                            EntryView::Data(to),
                                        ),
                                        used: at + 3,
                                    },
                                ),
                        ),
                    },
            ),
    )
}

/// Makes room for the children of an instance at `path`: an instance that is a single file becomes
/// a folder with the file in it, under the name and at the place that its rule gives.
pub open spec fn housing(path: Seq<char>, meta: MetaView, answers: Seq<ReplyView>) -> FlowView<
    HousingView,
> {
    let rules = rule_numbers(meta.context);
    asked_flag(answers, 0, RequestView::IsFile(path)).and_then(
        |is_file: bool|
            if !is_file {
                FlowView::Done(HousingView { path, source: meta.source, used: 1 })
            } else {
                asked_flags(answers, 1, RequestView::Matches { rules, path }).and_then(
                    |flags: Seq<bool>|
                        match first_match(rules, flags) {
                            None => FlowView::Fail(ErrorView::NoSyncRule(path)),
                            Some(rule) => asked_name(
                                answers,
                                2,
                                RequestView::NameBy { rule, path },
                            ).and_then(
                                |name: Seq<char>| rehousing(path, meta, rule, name, answers),
                            ),
                        },
                )
            },
    )
}

/// Makes the instance at `path`, a single file, a folder beside it with this name.
pub open spec fn rehousing(
    path: Seq<char>,
    meta: MetaView,
    rule: u64,
    name: Seq<char>,
    answers: Seq<ReplyView>,
) -> FlowView<HousingView> {
    let folder = with_name(path, name);
    asked_place(
        answers,
        3,
        RequestView::Locate { rule, path: folder, name, is_dir: true },
    ).and_then(
        |place: Option<Seq<char>>|
            match place {
                None => FlowView::Fail(ErrorView::NoFilePath(folder)),
                Some(file) => match first_data(meta.source.relevants) {
                    None => moving(path, folder, file, None, answers, 4),
                    Some(data) => asked_places(
                        answers,
                        4,
                        locating(meta.context, Middleware::InstanceData, folder, name, true),
                    ).and_then(
                        |places: Seq<Option<Seq<char>>>|
                            match first_place(places) {
                                None => FlowView::Fail(ErrorView::NoDataPath(folder)),
                                Some(to) => moving(
                                    path,
                                    folder,
                                    file,
                                    Some((data, to)),
                                    answers,
                                    5,
                                ),
                            },
                    ),
                },
            },
    )
}

/// Moves the file of an instance, and its data file, into a new folder.
fn relocate(
    path: &String,
    folder: String,
    file: String,
    data: Option<(String, String)>,
    answers: &Vec<Reply>,
    at: usize,
) -> (flow: Flow<Housing>)
    ensures
        flow.deep_view() == moving(
            path@,
            folder@,
            file@,
            (match data {
                Some((from, to)) => Some((from@, to@)),
                None => None,
            }),
            answers.deep_view(),
            at as int,
        ),
{
    if answers.len() <= at {
        return Flow::Ask(Request::WriteDir(folder));
    }
    assert(answers.deep_view()[at as int] == answers@[at as int].deep_view());
    match answers[at].done() {
        Ok(_) => {},
        Err(error) => {
            return Flow::Fail(error);
        },
    }
    if answers.len() <= at + 1 {
        return Flow::Ask(Request::Rename(path.clone(), file));
    }
    assert(answers.deep_view()[at + 1] == answers@[at + 1].deep_view());
    match answers[at + 1].done() {
        Ok(_) => {},
        Err(error) => {
            return Flow::Fail(error);
        },
    }
    let mut source: Source = Source::child_file(folder.as_str(), file.as_str());
    match data {
        None => Flow::Done(Housing { path: folder, source, used: at + 2 }),
        Some((from, to)) => {
            source.add_data(to.as_str());
            if answers.len() <= at + 2 {
                return Flow::Ask(Request::Rename(from, to));
            }
            assert(answers.deep_view()[at + 2] == answers@[at + 2].deep_view());
            match answers[at + 2].done() {
                Ok(_) => Flow::Done(Housing { path: folder, source, used: at + 3 }),
                Err(error) => Flow::Fail(error),
            }
        },
    }
}

/// Makes room for the children of an instance.
pub fn make_room(path: &String, meta: &Meta, answers: &Vec<Reply>) -> (flow: Flow<Housing>)
    ensures
        flow.deep_view() == housing(path@, meta.deep_view(), answers.deep_view()),
{
    let ghost told = answers.deep_view();
    if answers.len() <= 0 {
        return Flow::Ask(Request::IsFile(path.clone()));
    }
    assert(told[0] == answers@[0].deep_view());
    let is_file: bool = match answers[0].flag() {
        Ok(is_file) => is_file,
        Err(error) => {
            return Flow::Fail(error);
        },
    };
    if !is_file {
        return Flow::Done(Housing { path: path.clone(), source: meta.source.clone(), used: 1 });
    }
    let rules: Vec<u64> = meta.context.sync_rules();
    if answers.len() <= 1 {
        return Flow::Ask(Request::Matches { rules, path: path.clone() });
    }
    assert(told[1] == answers@[1].deep_view());
    let flags: &Vec<bool> = match answers[1].flags() {
        Ok(flags) => flags,
        Err(error) => {
            return Flow::Fail(error);
        },
    };
    let rule: u64 = match find_match(&rules, flags) {
        Some(rule) => rule,
        None => {
            return Flow::Fail(WriteError::NoSyncRule(path.clone()));
        },
    };
    if answers.len() <= 2 {
        return Flow::Ask(Request::NameBy { rule, path: path.clone() });
    }
    assert(told[2] == answers@[2].deep_view());
    let name: &String = match answers[2].name() {
        Ok(name) => name,
        Err(error) => {
            return Flow::Fail(error);
        },
    };
    let folder: String = with_file_name(path.as_str(), name.as_str());
    if answers.len() <= 3 {
        return Flow::Ask(Request::Locate { rule, path: folder, name: name.clone(), is_dir: true });
    }
    assert(told[3] == answers@[3].deep_view());
    let place: &Option<String> = match answers[3].place() {
        Ok(place) => place,
        Err(error) => {
            return Flow::Fail(error);
        },
    };
    let file: String = match place {
        Some(file) => file.clone(),
        None => {
            return Flow::Fail(WriteError::NoFilePath(folder));
        },
    };
    match meta.source.get_data() {
        None => relocate(path, folder, file, None, answers, 4),
        Some(data) => {
            if answers.len() <= 4 {
                return Flow::Ask(
                    locate(&meta.context, Middleware::InstanceData, &folder, name, true),
                );
            }
            assert(told[4] == answers@[4].deep_view());
            let places: &Vec<Option<String>> = match answers[4].places() {
                Ok(places) => places,
                Err(error) => {
                    return Flow::Fail(error);
                },
            };
            match find_place(places) {
                Some(to) => relocate(path, folder, file, Some((data.clone(), to)), answers, 5),
                None => Flow::Fail(WriteError::NoDataPath(folder)),
            }
        },
    }
}

/// Writes what is left of an instance to its data file, at the place that the rules for data
/// files give, and notes the file in the source.
pub open spec fn data_writing(
    has_file: bool,
    class: Seq<char>,
    properties: Map<Seq<char>, Variant>,
    path: Seq<char>,
    name: Seq<char>,
    is_dir: bool,
    meta: MetaView,
    answers: Seq<ReplyView>,
    at: int,
) -> FlowView<MetaView> {
    asked_places(
        answers,
        at,
        locating(meta.context, Middleware::InstanceData, path, name, is_dir),
    ).and_then(
        |places: Seq<Option<Seq<char>>>|
            match first_place(places) {
                None => FlowView::Fail(ErrorView::NoDataPath(path)),
                Some(place) => asked_data(
                    answers,
                    at + 1,
                    RequestView::WriteData { has_file, class, properties, path: place, meta },
                ).and_then(
                    |data: Option<Seq<char>>|
                        FlowView::Done(MetaView { source: meta.source.set_data(data), ..meta }),
                ),
            },
    )
}

/// Writes an instance: to a file, where its class has a kind of file, with a data file for what
/// that file does not hold; else to a folder with a data file.
pub open spec fn instance_writing(
    path: Seq<char>,
    snapshot: SnapshotView,
    context: Seq<SyncRule>,
    answers: Seq<ReplyView>,
    at: int,
) -> FlowView<MetaView> {
    let class = snapshot.class;
    let name = snapshot.name;
    let meta = MetaView { context, ..snapshot.meta };
    asked_kind(answers, at, RequestView::Middleware(class)).and_then(
        |kind: Option<Middleware>|
            match kind {
                Some(middleware) => asked_places(
                    answers,
                    at + 1,
                    locating(context, middleware, path, name, false),
                ).and_then(
                    |places: Seq<Option<Seq<char>>>|
                        match first_place(places) {
                            None => FlowView::Fail(ErrorView::NoFilePath(path)),
                            Some(file) => asked_rest(
                                answers,
                                at + 2,
                                RequestView::Write {
                                    middleware,
                                    properties: snapshot.properties,
                                    path: file,
                                },
                            ).and_then(
                                |rest: Map<Seq<char>, Variant>|
                                    {
                                        let meta = MetaView {
                                            source: SourceView::file(file),
                                            ..meta
                                        };
                                        if rest == Map::<Seq<char>, Variant>::empty() {
                                            FlowView::Done(meta)
                                        } else {
                                            data_writing(
                                                true,
                                                class,
                                                rest,
                                                path,
                                                name,
                                                false,
                                                meta,
                                                answers,
                                                at + 3,
                                            )
                                        }
                                    },
                            ),
                        },
                ),
                None => asked_done(answers, at + 1, RequestView::WriteDir(path)).and_then(
                    |made: ()|
                        data_writing(
                            false,
                            class,
                            snapshot.properties,
                            path,
                            name,
                            true,
                            MetaView { source: SourceView::directory(path), ..meta },
                            answers,
                            at + 2,
                        ),
                ),
            },
    )
}

/// Writes what is left of an instance to its data file.
fn write_data(
    has_file: bool,
    class: &String,
    properties: &Properties,
    path: &String,
    name: &String,
    is_dir: bool,
    meta: Meta,
    answers: &Vec<Reply>,
    at: usize,
) -> (flow: Flow<Meta>)
    ensures
        flow.deep_view() == data_writing(
            has_file,
            class@,
            properties@,
            path@,
            name@,
            is_dir,
            meta.deep_view(),
            answers.deep_view(),
            at as int,
        ),
{
    let ghost told = answers.deep_view();
    if answers.len() <= at {
        return Flow::Ask(locate(&meta.context, Middleware::InstanceData, path, name, is_dir));
    }
    assert(told[at as int] == answers@[at as int].deep_view());
    let places: &Vec<Option<String>> = match answers[at].places() {
        Ok(places) => places,
        Err(error) => {
            return Flow::Fail(error);
        },
    };
    let place: String = match find_place(places) {
        Some(place) => place,
        None => {
            return Flow::Fail(WriteError::NoDataPath(path.clone()));
        },
    };
    if answers.len() <= at + 1 {
        return Flow::Ask(
            Request::WriteData {
                has_file,
                class: class.clone(),
                properties: properties.clone(),
                path: place,
                meta,
            },
        );
    }
    assert(told[at + 1] == answers@[at + 1].deep_view());
    match answers[at + 1].data() {
        Ok(data) => {
            let mut meta: Meta = meta;
            meta.source.set_data(data.clone());
            Flow::Done(meta)
        },
        Err(error) => Flow::Fail(error),
    }
}

/// Writes an instance.
pub fn write_instance(
    path: &String,
    snapshot: &Snapshot,
    context: &Context,
    answers: &Vec<Reply>,
    at: usize,
) -> (flow: Flow<Meta>)
    ensures
        flow.deep_view() == instance_writing(
            path@,
            snapshot.deep_view(),
            context.deep_view(),
            answers.deep_view(),
            at as int,
        ),
{
    let ghost told = answers.deep_view();
    if answers.len() <= at {
        return Flow::Ask(Request::Middleware(snapshot.class.clone()));
    }
    assert(told[at as int] == answers@[at as int].deep_view());
    let kind: Option<Middleware> = match answers[at].kind() {
        Ok(kind) => kind,
        Err(error) => {
            return Flow::Fail(error);
        },
    };
    let meta: Meta = snapshot.meta.clone().with_context(context);
    match kind {
        Some(middleware) => {
            if answers.len() <= at + 1 {
                return Flow::Ask(locate(context, middleware, path, &snapshot.name, false));
            }
            assert(told[at + 1] == answers@[at + 1].deep_view());
            let places: &Vec<Option<String>> = match answers[at + 1].places() {
                Ok(places) => places,
                Err(error) => {
                    return Flow::Fail(error);
                },
            };
            let file: String = match find_place(places) {
                Some(file) => file,
                None => {
                    return Flow::Fail(WriteError::NoFilePath(path.clone()));
                },
            };
            if answers.len() <= at + 2 {
                return Flow::Ask(
                    Request::Write {
                        middleware,
                        properties: snapshot.properties.clone(),
                        path: file,
                    },
                );
            }
            assert(told[at + 2] == answers@[at + 2].deep_view());
            let rest: &Properties = match answers[at + 2].rest() {
                Ok(rest) => rest,
                Err(error) => {
                    return Flow::Fail(error);
                },
            };
            let meta: Meta = meta.with_source(Source::file(file.as_str()));
            if rest.is_empty() {
                return Flow::Done(meta);
            }
            write_data(
                true,
                &snapshot.class,
                rest,
                path,
                &snapshot.name,
                false,
                meta,
                answers,
                at + 3,
            )
        },
        None => {
            if answers.len() <= at + 1 {
                return Flow::Ask(Request::WriteDir(path.clone()));
            }
            assert(told[at + 1] == answers@[at + 1].deep_view());
            match answers[at + 1].done() {
                Ok(_) => {},
                Err(error) => {
                    return Flow::Fail(error);
                },
            }
            let meta: Meta = meta.with_source(Source::directory(path.as_str()));
            write_data(
                false,
                &snapshot.class,
                &snapshot.properties,
                path,
                &snapshot.name,
                true,
                meta,
                answers,
                at + 2,
            )
        },
    }
}

/// A new instance that still has to get its files.
pub struct Job {
    /// The instance that it is added to.
    pub parent: Ref,
    /// The place of that instance.
    pub path: String,
    /// What is known of that instance.
    pub meta: Meta,
    /// The new instance.
    pub snapshot: Snapshot,
}

/// What a [`Job`] is.
pub struct JobView {
    pub parent: Ref,
    pub path: Seq<char>,
    pub meta: MetaView,
    pub snapshot: SnapshotView,
}

impl DeepView for Job {
    type V = JobView;

    open spec fn deep_view(&self) -> JobView {
        JobView {
            parent: self.parent,
            path: self.path@,
            meta: self.meta.deep_view(),
            snapshot: self.snapshot.deep_view(),
        }
    }
}

/// What came of a [`Job`].
pub struct Placed {
    /// The source of the instance that the new one was added to.
    pub source: Source,
    /// The place of the new instance.
    pub path: String,
    /// What is known of the new instance.
    pub meta: Meta,
}

/// What a [`Placed`] is.
pub struct PlacedView {
    pub source: SourceView,
    pub path: Seq<char>,
    pub meta: MetaView,
}

impl DeepView for Placed {
    type V = PlacedView;

    open spec fn deep_view(&self) -> PlacedView {
        PlacedView {
            source: self.source.deep_view(),
            path: self.path@,
            meta: self.meta.deep_view(),
        }
    }
}

/// Makes room for a new instance and writes it there, under its name.
pub open spec fn placing(job: JobView, answers: Seq<ReplyView>) -> FlowView<PlacedView> {
    housing(job.path, job.meta, answers).and_then(
        |house: HousingView|
            {
                let path = joined(house.path, job.snapshot.name);
                instance_writing(
                    path,
                    job.snapshot,
                    job.meta.context,
                    answers,
                    house.used,
                ).and_then(
                    |meta: MetaView|
                        FlowView::Done(PlacedView { source: house.source, path, meta }),
                )
            },
    )
}

/// Makes room for a new instance and writes it there.
pub fn place_instance(job: &Job, answers: &Vec<Reply>) -> (flow: Flow<Placed>)
    ensures
        flow.deep_view() == placing(job.deep_view(), answers.deep_view()),
{
    let house: Housing = match make_room(&job.path, &job.meta, answers) {
        Flow::Ask(request) => {
            return Flow::Ask(request);
        },
        Flow::Fail(error) => {
            return Flow::Fail(error);
        },
        Flow::Done(house) => house,
    };
    let path: String = join(house.path.as_str(), job.snapshot.name.as_str());
    match write_instance(&path, &job.snapshot, &job.meta.context, answers, house.used) {
        Flow::Ask(request) => Flow::Ask(request),
        Flow::Fail(error) => Flow::Fail(error),
        Flow::Done(meta) => Flow::Done(Placed { source: house.source, path, meta }),
    }
}

} // verus!
