//! Laws of what an addition to files asks, from beginning to end.
use crate::exchange::{FlowView, ReplyView, RequestView};
use crate::laws::talk::Talk;
use crate::meta::{
    first_data, numbers_of_type, rule_numbers, without_data, EntryView, KindView, MetaView,
    Middleware,
};
use crate::path::{joined, with_name};
use crate::write::files::{
    first_match, first_place, housing, instance_writing, placing, JobView, PlacedView,
};
use rbx_dom_weak::types::Variant;
use vstd::prelude::*;

verus! {

/// The path that an instance is added to is a file, and has to become a folder first.
pub open spec fn is_moved(talk: Talk) -> bool {
    talk[0].1 == ReplyView::Flag(true)
}

/// How many exchanges it takes to make an instance ready for a child.
pub open spec fn count_ready(job: JobView, talk: Talk) -> int {
    if !is_moved(talk) {
        1
    } else if first_data(job.meta.source.relevants) is None {
        6
    } else {
        8
    }
}

/// The folder that a new instance goes to: the path of the instance that it is added to, or a
/// folder beside that, under the name that the rule gave, if the path is a file.
pub open spec fn home(job: JobView, talk: Talk) -> Seq<char> {
    if is_moved(talk) {
        with_name(job.path, talk[2].1->Name_0)
    } else {
        job.path
    }
}

/// The place of a new instance: its name in the folder that it goes to.
pub open spec fn place(job: JobView, talk: Talk) -> Seq<char> {
    joined(home(job, talk), job.snapshot.name)
}

/// The last exchange found this place.
pub open spec fn is_found(talk: Talk, path: Seq<char>) -> bool {
    &&& talk.last().0 is LocateEach
    &&& talk.last().1 matches ReplyView::Places(places) && first_place(places) == Some(path)
}

/// The request asks where the rules for a kind of file put the file of a new instance.
pub open spec fn is_sought(
    job: JobView,
    talk: Talk,
    request: RequestView,
    middleware: Middleware,
    within: bool,
) -> bool {
    request == (RequestView::LocateEach {
        rules: numbers_of_type(job.meta.context, middleware),
        path: place(job, talk),
        name: job.snapshot.name,
        is_dir: within,
    })
}

/// The request is the next one to make an instance ready for a child: where it is a file, the first
/// rule that matches gives the folder's name and the file's place in the folder, the folder is made
/// and the file moved into it, and the data file too, if there is one.
pub open spec fn readying_fits(job: JobView, talk: Talk, request: RequestView) -> bool {
    let data = first_data(job.meta.source.relevants);
    let rules = rule_numbers(job.meta.context);
    match request {
        RequestView::IsFile(path) => talk.len() == 0 && path == job.path,
        RequestView::Matches { rules: asked, path } => talk.len() == 1 && is_moved(talk) && asked
            == rules && path == job.path,
        RequestView::NameBy { rule, path } => {
            &&& talk.len() == 2
            &&& is_moved(talk)
            &&& path == job.path
            &&& talk[1].1 matches ReplyView::Flags(flags) && first_match(rules, flags) == Some(rule)
        },
        RequestView::Locate { rule, path, name, is_dir } => {
            &&& talk.len() == 3
            &&& is_moved(talk)
            &&& talk[2].0 == (RequestView::NameBy { rule, path: job.path })
            &&& talk[2].1 == ReplyView::Name(name)
            &&& path == home(job, talk)
            &&& is_dir
        },
        RequestView::LocateEach { rules: asked, path, name, is_dir } => {
            &&& talk.len() == 4
            &&& is_moved(talk)
            &&& data is Some
            &&& talk[3].1 matches ReplyView::Place(Some(_))
            &&& asked == numbers_of_type(job.meta.context, Middleware::InstanceData)
            &&& path == home(job, talk)
            &&& talk[2].1 == ReplyView::Name(name)
            &&& is_dir
        },
        RequestView::WriteDir(path) => {
            &&& is_moved(talk)
            &&& path == home(job, talk)
            &&& talk.len() > 3
            &&& talk[3].1 matches ReplyView::Place(Some(_))
            &&& match data {
                None => talk.len() == 4,
                Some(_) => talk.len() == 5 && (talk[4].1 matches ReplyView::Places(places)
                    && first_place(places) is Some),
            }
        },
        RequestView::Rename(from, to) => is_moved(talk) && {
            ||| talk.len() == count_ready(job, talk) - (if data is Some {
                2int
            } else {
                1int
            }) && from == job.path && talk[3].1 == ReplyView::Place(Some(to))
                && talk.last().1 is Done
            ||| talk.len() == 7 && data == Some(from) && talk.last().1 is Done && (
            talk[4].1 matches ReplyView::Places(places) && first_place(places) == Some(to))
        },
        _ => false,
    }
}

/// The request is the next one to write a new instance: where its class has a kind of file, the
/// file gets all properties and the data file exactly what the file left over, if anything; else
/// there is a folder with a data file that gets all properties.
pub open spec fn writing_fits(job: JobView, talk: Talk, request: RequestView) -> bool {
    let at = count_ready(job, talk);
    let class = job.snapshot.class;
    match request {
        RequestView::Middleware(asked) => talk.len() == at && asked == class && (talk.last().1
            is Done || talk.last().1 == ReplyView::Flag(false)),
        RequestView::LocateEach { .. } => {
            ||| talk.len() == at + 1 && talk[at].0 == RequestView::Middleware(class) && (
            talk[at].1 matches ReplyView::Kind(Some(middleware)) && is_sought(
                job,
                talk,
                request,
                middleware,
                false,
            ))
            ||| talk.len() == at + 2 && talk[at].1 == ReplyView::Kind(None) && talk[at + 1] == (
                RequestView::WriteDir(place(job, talk)),
                ReplyView::Done,
            ) && is_sought(job, talk, request, Middleware::InstanceData, true)
            ||| talk.len() == at + 3 && talk[at + 2].0 is Write && (
            talk[at + 2].1 matches ReplyView::Rest(rest) && rest != Map::<
                Seq<char>,
                Variant,
            >::empty()) && is_sought(job, talk, request, Middleware::InstanceData, false)
        },
        RequestView::WriteDir(path) => {
            &&& talk.len() == at + 1
            &&& talk[at] == (RequestView::Middleware(class), ReplyView::Kind(None))
            &&& path == place(job, talk)
        },
        RequestView::Write { middleware, properties, path } => {
            &&& talk.len() == at + 2
            &&& talk[at] == (RequestView::Middleware(class), ReplyView::Kind(Some(middleware)))
            &&& properties == job.snapshot.properties
            &&& is_found(talk, path)
        },
        RequestView::WriteData { has_file, class: of, properties, path, meta } => {
            &&& of == class
            &&& is_found(talk, path)
            &&& meta.context == job.meta.context
            &&& meta.keep_unknowns == job.snapshot.meta.keep_unknowns
            &&& if has_file {
                let file = talk[at + 2].0->Write_path;
                &&& talk.len() == at + 4
                &&& talk[at].1 matches ReplyView::Kind(Some(_))
                &&& talk[at + 2].0 is Write
                &&& talk[at + 2].1 == ReplyView::Rest(properties)
                &&& meta.source.inner == KindView::Path(file)
                &&& meta.source.relevants == seq![EntryView::File(file)]
            } else {
                &&& talk.len() == at + 3
                &&& talk[at].1 == ReplyView::Kind(None)
                &&& properties == job.snapshot.properties
                &&& meta.source.inner == KindView::Path(place(job, talk))
                &&& meta.source.relevants == seq![EntryView::Folder(place(job, talk))]
            }
        },
        _ => false,
    }
}

/// The request is the next one to give a new instance its files.
pub open spec fn job_fits(job: JobView, talk: Talk, request: RequestView) -> bool {
    if talk.len() == 0 || talk.len() < count_ready(job, talk) {
        readying_fits(job, talk, request)
    } else {
        writing_fits(job, talk, request)
    }
}

/// An entry for a data file, if there is one.
pub open spec fn data_entry(path: Option<Seq<char>>) -> Seq<EntryView> {
    match path {
        Some(path) => seq![EntryView::Data(path)],
        None => Seq::empty(),
    }
}

/// The talk gave a new instance its files, and this is known now of it and of the instance that it
/// was added to.
pub open spec fn job_ends(job: JobView, talk: Talk, placed: PlacedView) -> bool {
    let at = count_ready(job, talk);
    let here = place(job, talk);
    &&& talk.len() > at
    &&& talk[at].0 == RequestView::Middleware(job.snapshot.class)
    &&& placed.path == here
    &&& placed.meta.context == job.meta.context
    &&& placed.meta.keep_unknowns == job.snapshot.meta.keep_unknowns
    &&& if is_moved(talk) {
        &&& placed.source.inner == KindView::Path(home(job, talk))
        &&& placed.source.relevants == seq![
            EntryView::Folder(home(job, talk)),
            EntryView::File(talk[3].1->Place_0->0),
        ] + data_entry(
            if first_data(job.meta.source.relevants) is Some {
                first_place(talk[4].1->Places_0)
            } else {
                None
            },
        )
    } else {
        placed.source == job.meta.source
    }
    &&& match talk[at].1 {
        ReplyView::Kind(Some(_)) => {
            let file = talk[at + 2].0->Write_path;
            &&& talk.len() > at + 2
            &&& talk[at + 2].0 is Write
            &&& placed.meta.source.inner == KindView::Path(file)
            &&& talk[at + 2].1 matches ReplyView::Rest(rest) && if rest == Map::<
                Seq<char>,
                Variant,
            >::empty() {
                talk.len() == at + 3 && placed.meta.source.relevants == seq![EntryView::File(file)]
            } else {
                &&& talk.len() == at + 5
                &&& talk.last().0 is WriteData
                &&& talk.last().1 matches ReplyView::Data(data) && placed.meta.source.relevants
                    == seq![EntryView::File(file)] + data_entry(data)
            }
        },
        ReplyView::Kind(None) => {
            &&& talk.len() == at + 4
            &&& talk[at + 1] == (RequestView::WriteDir(here), ReplyView::Done)
            &&& talk.last().0 is WriteData
            &&& placed.meta.source.inner == KindView::Path(here)
            &&& talk.last().1 matches ReplyView::Data(data) && placed.meta.source.relevants
                == seq![EntryView::Folder(here)] + data_entry(data)
        },
        _ => false,
    }
}

/// The talk is what a job asks and is told.
pub(crate) open spec fn is_job_talk(job: JobView, answers: Seq<ReplyView>, talk: Talk) -> bool {
    &&& answers.len() == talk.len()
    &&& forall|j: int|
        0 <= j < talk.len() ==> (#[trigger] talk[j]).1 == answers[j] && (placing(
            job,
            answers.take(j),
        ) matches FlowView::Ask(asked) && asked == talk[j].0)
}

/// What is asked while an instance is made ready.
proof fn lemma_readying(job: JobView, answers: Seq<ReplyView>, talk: Talk)
    requires
        answers.len() == talk.len(),
        forall|j: int|
            0 <= j < talk.len() ==> (#[trigger] talk[j]).1 == answers[j] && (housing(
                job.path,
                job.meta,
                answers.take(j),
            ) matches FlowView::Ask(asked) && asked == talk[j].0),
    ensures
        match housing(job.path, job.meta, answers) {
            FlowView::Ask(request) => readying_fits(job, talk, request) && (talk.len() > 0
                ==> talk.len() < count_ready(job, talk)),
            FlowView::Done(house) => house.used == answers.len() ==> {
                &&& talk.len() == count_ready(job, talk)
                &&& house.path == home(job, talk)
                &&& talk.last().1 is Done || talk.last().1 == ReplyView::Flag(false)
                &&& if is_moved(talk) {
                    &&& house.source.inner == KindView::Path(home(job, talk))
                    &&& house.source.relevants == seq![
                        EntryView::Folder(home(job, talk)),
                        EntryView::File(talk[3].1->Place_0->0),
                    ] + data_entry(
                        if first_data(job.meta.source.relevants) is Some {
                            first_place(talk[4].1->Places_0)
                        } else {
                            None
                        },
                    )
                } else {
                    house.source == job.meta.source
                }
            },
            FlowView::Fail(_) => true,
        },
{
    assert(talk.len() > 0 ==> talk[0].1 == answers[0]);
    assert(talk.len() > 1 ==> talk[1].1 == answers[1]);
    assert(talk.len() > 2 ==> talk[2].1 == answers[2]);
    assert(talk.len() > 3 ==> talk[3].1 == answers[3]);
    assert(talk.len() > 4 ==> talk[4].1 == answers[4]);
    assert(talk.len() > 5 ==> talk[5].1 == answers[5]);
    assert(talk.len() > 6 ==> talk[6].1 == answers[6]);
    assert(talk.len() > 7 ==> talk[7].1 == answers[7]);
    match housing(job.path, job.meta, answers) {
        FlowView::Done(house) => {
            if house.used == answers.len() && is_moved(talk) {
                let pair = seq![
                    EntryView::Folder(home(job, talk)),
                    EntryView::File(talk[3].1->Place_0->0),
                ];
                match first_data(job.meta.source.relevants) {
                    Some(_) => {
                        let to = first_place(talk[4].1->Places_0)->0;
                        assert(pair.push(EntryView::Data(to)) =~= pair + data_entry(Some(to)));
                    },
                    None => {
                        assert(pair =~= pair + data_entry(None));
                    },
                }
            }
        },
        _ => {},
    }
}

/// Making ready does not depend on answers that it does not use.
proof fn lemma_ready_before(path: Seq<char>, meta: MetaView, answers: Seq<ReplyView>, k: int)
    requires
        housing(path, meta, answers) matches FlowView::Done(house) && house.used <= k
            <= answers.len(),
    ensures
        housing(path, meta, answers.take(k)) == housing(path, meta, answers),
{
}

/// Making ready comes to the same when more answers are there.
proof fn lemma_ready_after(path: Seq<char>, meta: MetaView, answers: Seq<ReplyView>, k: int)
    requires
        0 <= k <= answers.len(),
        housing(path, meta, answers.take(k)) is Done,
    ensures
        housing(path, meta, answers) == housing(path, meta, answers.take(k)),
        housing(path, meta, answers)->Done_0.used <= k,
{
    let part = answers.take(k);
    assert forall|j: int| 0 <= j < k implies part[j] == answers[j] by {}
}

/// What is asked while a new instance is written, and what is known of it then.
#[verifier::rlimit(40)]
proof fn lemma_writing_talk(job: JobView, answers: Seq<ReplyView>, talk: Talk, at: int)
    requires
        answers.len() == talk.len(),
        talk.len() > 0,
        at == count_ready(job, talk),
        at <= talk.len(),
        talk[at - 1].1 is Done || talk[at - 1].1 == ReplyView::Flag(false),
        forall|j: int| 0 <= j < talk.len() ==> (#[trigger] talk[j]).1 == answers[j],
        forall|j: int|
            at <= j < talk.len() ==> (instance_writing(
                place(job, talk),
                job.snapshot,
                job.meta.context,
                answers.take(j),
                at,
            ) matches FlowView::Ask(asked) && asked == (#[trigger] talk[j]).0),
    ensures
        match instance_writing(
            place(job, talk),
            job.snapshot,
            job.meta.context,
            answers,
            at,
        ) {
            FlowView::Ask(request) => writing_fits(job, talk, request),
            FlowView::Done(meta) => {
                let here = place(job, talk);
                &&& talk.len() > at
                &&& talk[at].0 == RequestView::Middleware(job.snapshot.class)
                &&& meta.context == job.meta.context
                &&& meta.keep_unknowns == job.snapshot.meta.keep_unknowns
                &&& match talk[at].1 {
                    ReplyView::Kind(Some(_)) => {
                        let file = talk[at + 2].0->Write_path;
                        &&& talk.len() > at + 2
                        &&& talk[at + 2].0 is Write
                        &&& meta.source.inner == KindView::Path(file)
                        &&& talk[at + 2].1 matches ReplyView::Rest(rest) && if rest == Map::<
                            Seq<char>,
                            Variant,
                        >::empty() {
                            talk.len() == at + 3 && meta.source.relevants == seq![
                                EntryView::File(file),
                            ]
                        } else {
                            &&& talk.len() == at + 5
                            &&& talk.last().0 is WriteData
                            &&& talk.last().1 matches ReplyView::Data(data)
                                && meta.source.relevants == seq![EntryView::File(file)]
                                + data_entry(data)
                        }
                    },
                    ReplyView::Kind(None) => {
                        &&& talk.len() == at + 4
                        &&& talk[at + 1] == (RequestView::WriteDir(here), ReplyView::Done)
                        &&& talk.last().0 is WriteData
                        &&& meta.source.inner == KindView::Path(here)
                        &&& talk.last().1 matches ReplyView::Data(data) && meta.source.relevants
                            == seq![EntryView::Folder(here)] + data_entry(data)
                    },
                    _ => false,
                }
            },
            FlowView::Fail(_) => true,
        },
{
    let n = talk.len() as int;
    assert(n > at ==> talk[at].1 == answers[at]);
    assert(n > at + 1 ==> talk[at + 1].1 == answers[at + 1]);
    assert(n > at + 2 ==> talk[at + 2].1 == answers[at + 2]);
    assert(n > at + 3 ==> talk[at + 3].1 == answers[at + 3]);
    assert(n > at + 4 ==> talk[at + 4].1 == answers[at + 4]);
    assert(n > at + 5 ==> talk[at + 5].1 == answers[at + 5]);
    let file = talk[at + 2].0->Write_path;
    let here = place(job, talk);
    lemma_single_data(EntryView::File(file), talk.last().1->Data_0);
    lemma_single_data(EntryView::Folder(here), talk.last().1->Data_0);
}

/// The data file of a source with one other entry.
proof fn lemma_single_data(entry: EntryView, data: Option<Seq<char>>)
    requires
        !(entry is Data),
    ensures
        without_data(seq![entry]) == seq![entry],
        (match data {
            Some(path) => without_data(seq![entry]).push(EntryView::Data(path)),
            None => without_data(seq![entry]),
        }) == seq![entry] + data_entry(data),
{
    let list = seq![entry];
    reveal_with_fuel(without_data, 2);
    assert(list.drop_last().len() == 0);
    assert(without_data(list.drop_last()) =~= Seq::empty());
    assert(without_data(list) =~= list);
    match data {
        Some(path) => {
            assert(list.push(EntryView::Data(path)) =~= list + data_entry(data));
        },
        None => {
            assert(list =~= list + data_entry(data));
        },
    }
}

/// What a job asks and is told gives a new instance its files.
pub(crate) proof fn lemma_job_talk(job: JobView, answers: Seq<ReplyView>, talk: Talk)
    requires
        is_job_talk(job, answers, talk),
    ensures
        match placing(job, answers) {
            FlowView::Ask(request) => job_fits(job, talk, request),
            FlowView::Done(placed) => job_ends(job, talk, placed),
            FlowView::Fail(_) => true,
        },
        placing(job, answers) matches FlowView::Ask(request) ==> (request is IsFile <==> talk.len()
            == 0),
{
    let n = answers.len() as int;
    assert(answers.take(n) =~= answers);
    match housing(job.path, job.meta, answers) {
        FlowView::Ask(_) => {
            assert forall|j: int| 0 <= j < talk.len() implies (#[trigger] talk[j]).1 == answers[j]
                && (housing(job.path, job.meta, answers.take(j)) matches FlowView::Ask(asked)
                && asked == talk[j].0) by {
                if housing(job.path, job.meta, answers.take(j)) is Done {
                    lemma_ready_after(job.path, job.meta, answers, j);
                }
            }
            lemma_readying(job, answers, talk);
        },
        FlowView::Done(house) => {
            lemma_ready_after(job.path, job.meta, answers, n);
            let at = house.used;
            lemma_ready_before(job.path, job.meta, answers, at);
            let part = answers.take(at);
            let first = talk.take(at);
            assert forall|j: int| 0 <= j < first.len() implies (#[trigger] first[j]).1 == part[j]
                && (housing(job.path, job.meta, part.take(j)) matches FlowView::Ask(asked) && asked
                == first[j].0) by {
                assert(first[j] == talk[j]);
                assert(part.take(j) =~= answers.take(j));
                if housing(job.path, job.meta, answers.take(j)) is Done {
                    lemma_ready_after(job.path, job.meta, answers, j);
                }
            }
            lemma_readying(job, part, first);
            assert(at >= 1);
            assert(first[0] == talk[0]);
            if is_moved(talk) {
                assert(first[2] == talk[2]);
                assert(first[3] == talk[3]);
                assert(first[4] == talk[4]);
            }
            assert(first.last() == talk[at - 1]);
            assert forall|j: int| at <= j < talk.len() implies (instance_writing(
                place(job, talk),
                job.snapshot,
                job.meta.context,
                answers.take(j),
                at,
            ) matches FlowView::Ask(asked) && asked == (#[trigger] talk[j]).0) by {
                lemma_ready_before(job.path, job.meta, answers, j);
            }
            lemma_writing_talk(job, answers, talk, at);
        },
        FlowView::Fail(_) => {},
    }
}

} // verus!
