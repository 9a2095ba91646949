//! Laws of replies that are no answers.
use crate::exchange::{ErrorView, FlowView, ReplyView, RequestView, StepView};
use crate::laws::nodes::lemma_one_answer_more;
use crate::meta::{EntryView, KindView, MetaView};
use crate::path::{custom_place, joined};
use crate::properties::validated;
use crate::tree::InstanceView;
use crate::write::files::{first_match, first_place, housing, instance_writing, placing, JobView};
use crate::write::removal::{
    disposing, leaving, parent_of, removal_resumed, removal_step, RemovalView,
};
use crate::write::update::{
    carrying_out, moves, renamed_meta, revising, update_resumed, update_step, UpdateView,
};
use rbx_dom_weak::types::Variant;
use vstd::prelude::*;

verus! {

/// The reply is of the kind that the request asks for.
pub open spec fn is_answer(request: RequestView, reply: ReplyView) -> bool {
    match request {
        RequestView::IsFile(_) => reply is Flag,
        RequestView::IsDir(_) => reply is Flag,
        RequestView::Exists(_) => reply is Flag,
        RequestView::WriteDir(_) => reply is Done,
        RequestView::Rename(_, _) => reply is Done,
        RequestView::Remove(_) => reply is Done,
        RequestView::Middleware(_) => reply is Kind,
        RequestView::Matches { .. } => reply is Flags,
        RequestView::MatchesChild { .. } => reply is Flags,
        RequestView::NameBy { .. } => reply is Name,
        RequestView::Locate { .. } => reply is Place,
        RequestView::LocateEach { .. } => reply is Places,
        RequestView::Write { .. } => reply is Rest,
        RequestView::WriteData { .. } => reply is Data,
        RequestView::Load(_) => reply is Project,
        RequestView::Save { .. } => reply is Done,
    }
}

/// The error says that a reply was no answer: why the request failed, if the reply says that.
pub open spec fn blames(error: ErrorView, reply: ReplyView) -> bool {
    match reply {
        ReplyView::Failed(reason) => error == ErrorView::Failed(reason),
        _ => error is Mismatch,
    }
}

/// A conversation that asks does not fail with an answer, and fails with any other reply.
pub open spec fn heeds<A>(
    now: FlowView<A>,
    next: FlowView<A>,
    reply: ReplyView,
) -> bool {
    now matches FlowView::Ask(request) ==> if is_answer(request, reply) {
        !(next is Fail)
    } else {
        next matches FlowView::Fail(error) && blames(error, reply)
    }
}

/// An operation that asks goes on with an answer, or stops for a reason that is not the reply's
/// fault, and fails with any other reply.
pub open spec fn step_heeds<A>(
    request: RequestView,
    next: StepView<A>,
    reply: ReplyView,
) -> bool {
    if is_answer(request, reply) {
        next matches StepView::Stop(Err(error), _, _) ==> !(error is Failed) && !(error
            is Mismatch)
    } else {
        next matches StepView::Stop(Err(error), _, _) && blames(error, reply)
    }
}

proof fn lemma_disposing_heeds(
    entries: Seq<EntryView>,
    answers: Seq<ReplyView>,
    at: int,
    reply: ReplyView,
)
    requires
        0 <= at <= answers.len(),
    ensures
        heeds(
            disposing(entries, answers, at),
            disposing(entries, answers.push(reply), at),
            reply,
        ),
        disposing(entries, answers, at) is Done ==> disposing(entries, answers.push(reply), at)
            == disposing(entries, answers, at) && at <= disposing(entries, answers, at)->Done_0
            <= answers.len(),
        answers.len() == at ==> (disposing(entries, answers.push(reply), at) matches FlowView::Fail(
            error,
        ) ==> disposing(entries, answers, at) is Ask),
    decreases entries.len(),
{
    if entries.len() > 0 {
        let rest = entries.skip(1);
        let more = answers.push(reply);
        lemma_disposing_heeds(rest, answers, at, reply);
        if at < answers.len() {
            assert(more[at] == answers[at]);
            lemma_disposing_heeds(rest, answers, at + 1, reply);
            if at + 1 < answers.len() {
                assert(more[at + 1] == answers[at + 1]);
                lemma_disposing_heeds(rest, answers, at + 2, reply);
            } else {
                lemma_disposing_whole(rest, more, at + 2);
            }
        } else {
            lemma_disposing_whole(rest, more, at + 1);
        }
    }
}

/// Without answers left nothing fails.
proof fn lemma_disposing_whole(entries: Seq<EntryView>, answers: Seq<ReplyView>, at: int)
    requires
        at >= answers.len(),
    ensures
        !(disposing(entries, answers, at) is Fail),
    decreases entries.len(),
{
    if entries.len() > 0 {
        lemma_disposing_whole(entries.skip(1), answers, at);
    }
}

proof fn lemma_leaving_heeds(
    parent: Option<InstanceView>,
    answers: Seq<ReplyView>,
    at: int,
    reply: ReplyView,
)
    requires
        0 <= at <= answers.len(),
    ensures
        heeds(leaving(parent, answers, at), leaving(parent, answers.push(reply), at), reply),
        leaving(parent, answers, at) is Done ==> leaving(parent, answers.push(reply), at)
            == leaving(parent, answers, at) && leaving(parent, answers, at)->Done_0.used
            <= answers.len(),
{
}

/// Without answers left only the lack of an instance above is at fault.
proof fn lemma_leaving_whole(parent: Option<InstanceView>, answers: Seq<ReplyView>, at: int)
    requires
        at >= answers.len(),
    ensures
        leaving(parent, answers, at) matches FlowView::Fail(error) ==> error is NoParent && parent
            is None,
        leaving(parent, answers, at) matches FlowView::Done(folded) ==> folded.used == at,
{
}

/// A removal fails with any reply that is no answer, and with an answer only where the project
/// lacks the node or there is no instance above.
pub proof fn removal_heeds_replies(removal: RemovalView, reply: ReplyView)
    ensures
        removal_step(removal) matches StepView::Ask(request, next) ==> {
            &&& step_heeds(request, removal_resumed(next, reply), reply)
            &&& is_answer(request, reply) ==> (removal_resumed(next, reply) matches StepView::Stop(
                Err(error),
                _,
                _,
            ) ==> match error {
                ErrorView::NotInProject(id, loaded) => id == removal.id && request is Load && reply
                    == ReplyView::Project(loaded),
                ErrorView::NoParent => match removal.tree[removal.id].parent {
                    Some(above) => !removal.tree.contains_key(above),
                    None => true,
                },
                _ => false,
            })
        },
{
    let meta = removal.tree[removal.id].meta;
    let parent = parent_of(removal.tree, removal.id);
    let answers = removal.answers;
    let more = answers.push(reply);
    let entries = meta.source.relevants;
    let at = if meta.source.inner is Path {
        0int
    } else {
        1int
    };
    if answers.len() > 0 {
        assert(more[0] == answers[0]);
    }
    if at <= answers.len() {
        lemma_disposing_heeds(entries, answers, at, reply);
        match disposing(entries, answers, at) {
            FlowView::Done(used) => {
                lemma_leaving_heeds(parent, answers, used, reply);
                match leaving(parent, answers, used) {
                    FlowView::Done(folded) => {
                        if folded.used < answers.len() {
                            assert(more[folded.used] == answers[folded.used]);
                        }
                    },
                    _ => {},
                }
            },
            FlowView::Ask(_) => {
                match disposing(entries, more, at) {
                    FlowView::Done(used) => {
                        lemma_disposing_used(entries, answers, at, reply);
                        lemma_leaving_whole(parent, more, used);
                    },
                    _ => {},
                }
            },
            _ => {},
        }
    } else {
        lemma_disposing_whole(entries, more, at);
        match disposing(entries, more, at) {
            FlowView::Done(used) => {
                lemma_disposing_none(entries, more, at);
                lemma_leaving_whole(parent, more, used);
            },
            _ => {},
        }
    }
}

/// An answer that ends what was asked is used.
proof fn lemma_disposing_used(
    entries: Seq<EntryView>,
    answers: Seq<ReplyView>,
    at: int,
    reply: ReplyView,
)
    requires
        0 <= at <= answers.len(),
        disposing(entries, answers, at) is Ask,
    ensures
        disposing(entries, answers.push(reply), at) matches FlowView::Done(used) ==> used
            == answers.len() + 1,
    decreases entries.len(),
{
    let rest = entries.skip(1);
    let more = answers.push(reply);
    if at < answers.len() {
        assert(more[at] == answers[at]);
    }
    if disposing(rest, answers, at) is Ask {
        lemma_disposing_used(rest, answers, at, reply);
    }
    if at < answers.len() {
        if disposing(rest, answers, at + 1) is Ask {
            lemma_disposing_used(rest, answers, at + 1, reply);
        }
        if at + 1 < answers.len() {
            assert(more[at + 1] == answers[at + 1]);
            if disposing(rest, answers, at + 2) is Ask {
                lemma_disposing_used(rest, answers, at + 2, reply);
            }
        } else {
            lemma_disposing_none(rest, more, at + 2);
        }
    } else {
        lemma_disposing_none(rest, more, at + 1);
    }
}

/// Where nothing is asked no answer is used.
proof fn lemma_disposing_none(entries: Seq<EntryView>, answers: Seq<ReplyView>, at: int)
    requires
        at >= answers.len(),
    ensures
        disposing(entries, answers, at) matches FlowView::Done(used) ==> used == at,
    decreases entries.len(),
{
    if entries.len() > 0 {
        lemma_disposing_none(entries.skip(1), answers, at);
    }
}

proof fn lemma_carrying_heeds(
    requests: Seq<RequestView>,
    answers: Seq<ReplyView>,
    at: int,
    reply: ReplyView,
)
    requires
        0 <= at <= answers.len(),
        forall|i: int| 0 <= i < requests.len() ==> (#[trigger] requests[i]) is Rename,
    ensures
        heeds(
            carrying_out(requests, answers, at),
            carrying_out(requests, answers.push(reply), at),
            reply,
        ),
        carrying_out(requests, answers, at) is Done ==> carrying_out(
            requests,
            answers.push(reply),
            at,
        ) is Done,
        carrying_out(requests, answers, at) is Done ==> requests.len() == 0 || at + requests.len()
            <= answers.len(),
        carrying_out(requests, answers, at) is Ask && carrying_out(
            requests,
            answers.push(reply),
            at,
        ) is Done ==> at + requests.len() == answers.len() + 1,
    decreases requests.len(),
{
    if requests.len() > 0 {
        let rest = requests.skip(1);
        let more = answers.push(reply);
        assert(requests[0] is Rename);
        assert forall|i: int| 0 <= i < rest.len() implies (#[trigger] rest[i]) is Rename by {
            assert(rest[i] == requests[i + 1]);
        }
        if at < answers.len() {
            assert(more[at] == answers[at]);
            lemma_carrying_heeds(rest, answers, at + 1, reply);
        }
    }
}

proof fn lemma_all_renamed(entries: Seq<EntryView>, from: Seq<char>, to: Seq<char>)
    ensures
        forall|i: int|
            0 <= i < moves(entries, from, to).len() ==> (#[trigger] moves(entries, from, to)[i])
                is Rename,
    decreases entries.len(),
{
    if entries.len() > 0 {
        let before = moves(entries.drop_last(), from, to);
        let all = moves(entries, from, to);
        lemma_all_renamed(entries.drop_last(), from, to);
        assert forall|i: int| 0 <= i < all.len() implies (#[trigger] all[i]) is Rename by {
            if i < before.len() {
                assert(all[i] == before[i]);
            }
        }
    }
}

proof fn lemma_revising_heeds(
    path: Seq<char>,
    name: Seq<char>,
    class: Seq<char>,
    properties: Map<Seq<char>, Variant>,
    meta: MetaView,
    answers: Seq<ReplyView>,
    at: int,
    reply: ReplyView,
)
    requires
        0 <= at <= answers.len(),
    ensures
        heeds(
            revising(path, name, class, properties, meta, answers, at),
            revising(path, name, class, properties, meta, answers.push(reply), at),
            reply,
        ),
        revising(path, name, class, properties, meta, answers, at) is Ask && revising(
            path,
            name,
            class,
            properties,
            meta,
            answers.push(reply),
            at,
        ) is Done ==> revising(
            path,
            name,
            class,
            properties,
            meta,
            answers.push(reply),
            at,
        )->Done_0.used == answers.len() + 1,
{
}

/// An update fails with any reply that is no answer, and with an answer only where the project
/// lacks a node.
pub proof fn update_heeds_replies(update: UpdateView, reply: ReplyView)
    ensures
        update_step(update) matches StepView::Ask(request, next) ==> {
            &&& step_heeds(request, update_resumed(next, reply), reply)
            &&& is_answer(request, reply) ==> (update_resumed(next, reply) matches StepView::Stop(
                Err(error),
                _,
                _,
            ) ==> error is NoNode || error is NoParentNode || error is NotBelowParent)
        },
{
    let instance = update.tree[update.id];
    let answers = update.answers;
    let more = answers.push(reply);
    if answers.len() > 0 {
        assert(more[0] == answers[0]);
    }
    match instance.meta.source.inner {
        KindView::Path(path) => {
            let old = instance.name;
            let class = instance.class;
            let meta = instance.meta;
            match update.name {
                Some(new) => {
                    let requests = moves(meta.source.relevants, old, new);
                    let later = renamed_meta(meta, path, old, new);
                    lemma_all_renamed(meta.source.relevants, old, new);
                    lemma_carrying_heeds(requests, answers, 0, reply);
                    match update.properties {
                        Some(given) => {
                            let meant = validated(given);
                            let at = requests.len() as int;
                            if at <= answers.len() {
                                lemma_revising_heeds(
                                    path,
                                    new,
                                    class,
                                    meant,
                                    later,
                                    answers,
                                    at,
                                    reply,
                                );
                            }
                        },
                        None => {},
                    }
                },
                None => {
                    match update.properties {
                        Some(given) => {
                            lemma_revising_heeds(
                                path,
                                old,
                                class,
                                validated(given),
                                meta,
                                answers,
                                0,
                                reply,
                            );
                        },
                        None => {},
                    }
                },
            }
        },
        KindView::Project(_, path, node, _) => {
            match (update.properties, node.path) {
                (Some(given), Some(custom)) if answers.len() > 0 => {
                    let place = custom_place(path, custom);
                    let meant = validated(given);
                    lemma_revising_heeds(
                        place,
                        instance.name,
                        instance.class,
                        meant,
                        instance.meta,
                        answers,
                        1,
                        reply,
                    );
                    if revising(
                        place,
                        instance.name,
                        instance.class,
                        meant,
                        instance.meta,
                        answers,
                        1,
                    ) is Done {
                        lemma_one_answer_more(
                            place,
                            instance.name,
                            instance.class,
                            meant,
                            instance.meta,
                            answers,
                            1,
                            reply,
                        );
                    }
                },
                _ => {},
            }
        },
        KindView::Nowhere => {},
    }
}

/// An answer leaves a new instance without a rule or a place, and the error says so. The place that
/// is asked for right after the kind of file is that of the file, any other that of a data file.
pub open spec fn finds_nothing(
    before: ReplyView,
    request: RequestView,
    reply: ReplyView,
    error: ErrorView,
) -> bool {
    match (request, reply) {
        (RequestView::Matches { rules, path }, ReplyView::Flags(flags)) => first_match(rules, flags)
            is None && error == ErrorView::NoSyncRule(path),
        (RequestView::Locate { path, .. }, ReplyView::Place(place)) => place is None && error
            == ErrorView::NoFilePath(path),
        (RequestView::LocateEach { path, .. }, ReplyView::Places(places)) => first_place(places)
            is None && error == (if before matches ReplyView::Kind(Some(_)) {
            ErrorView::NoFilePath(path)
        } else {
            ErrorView::NoDataPath(path)
        }),
        _ => false,
    }
}

/// A new instance is given up with any reply that is no answer, and with an answer only where it
/// finds nothing.
pub(crate) proof fn lemma_job_heeds(job: JobView, answers: Seq<ReplyView>, reply: ReplyView)
    ensures
        placing(job, answers) matches FlowView::Ask(request) ==> match placing(
            job,
            answers.push(reply),
        ) {
            FlowView::Fail(error) => if is_answer(request, reply) {
                finds_nothing(answers.last(), request, reply, error)
            } else {
                blames(error, reply)
            },
            _ => is_answer(request, reply),
        },
{
    let more = answers.push(reply);
    match housing(job.path, job.meta, answers) {
        FlowView::Done(house) => {
            lemma_housing_stays(job, answers, reply);
            lemma_writing_heeds(job, answers, house.used, reply, house.path);
        },
        FlowView::Ask(_) => {
            lemma_housing_heeds(job, answers, reply);
        },
        _ => {},
    }
}

proof fn lemma_housing_stays(job: JobView, answers: Seq<ReplyView>, reply: ReplyView)
    requires
        housing(job.path, job.meta, answers) is Done,
    ensures
        housing(job.path, job.meta, answers.push(reply)) == housing(job.path, job.meta, answers),
        0 <= housing(job.path, job.meta, answers)->Done_0.used <= answers.len(),
{
}

proof fn lemma_housing_heeds(job: JobView, answers: Seq<ReplyView>, reply: ReplyView)
    ensures
        housing(job.path, job.meta, answers) matches FlowView::Ask(request) ==> match housing(
            job.path,
            job.meta,
            answers.push(reply),
        ) {
            FlowView::Fail(error) => if is_answer(request, reply) {
                finds_nothing(answers.last(), request, reply, error)
            } else {
                blames(error, reply)
            },
            FlowView::Done(house) => is_answer(request, reply) && house.used == answers.len() + 1,
            _ => is_answer(request, reply),
        },
{
}

proof fn lemma_writing_heeds(
    job: JobView,
    answers: Seq<ReplyView>,
    at: int,
    reply: ReplyView,
    folder: Seq<char>,
)
    requires
        0 <= at <= answers.len(),
    ensures
        ({
            let path = joined(folder, job.snapshot.name);
            instance_writing(
                path,
                job.snapshot,
                job.meta.context,
                answers,
                at,
            ) matches FlowView::Ask(request) ==> match instance_writing(
                path,
                job.snapshot,
                job.meta.context,
                answers.push(reply),
                at,
            ) {
                FlowView::Fail(error) => if is_answer(request, reply) {
                    finds_nothing(answers.last(), request, reply, error)
                } else {
                    blames(error, reply)
                },
                _ => is_answer(request, reply),
            }
        }),
{
}

} // verus!
