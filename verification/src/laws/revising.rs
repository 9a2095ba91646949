//! Laws of what an update asks, from beginning to end.
use crate::exchange::{refusal, ErrorView, FlowView, NoticeView, ReplyView, RequestView, StepView};
use crate::laws::basics::{
    own_words, paths_lead_down_by_names, replacing_a_node_keeps_the_others, said_at, same_elsewhere,
};
use crate::laws::entries::lemma_pushed;
use crate::laws::removing::own_entries;
use crate::laws::talk::{lemma_update_talk, update_after, update_talk, Talk};
use crate::laws::update::update_run;
use crate::meta::{
    first_data, first_file, numbers_of_type, EntryView, KindView, MetaView, Middleware, SourceView,
};
use crate::node::{node_at, parent_path, with_node_at, NodeView};
use crate::path::{custom_place, name_of, with_name};
use crate::properties::{serialized, validated};
use crate::text::replaced;
use crate::tree::{InstanceView, TreeView};
use crate::value::UnresolvedView;
use crate::write::files::first_place;
use crate::write::update::{
    carrying_out, cleared, moves, renamed_child, renamed_meta, revising, rewritten, update_started,
    update_step, updating, UpdateView,
};
use rbx_dom_weak::types::{Ref, Variant};
use vstd::prelude::*;

verus! {

/// A file is where it was known to be, or else where the last exchange found a place for it.
pub open spec fn is_place_found(known: Option<Seq<char>>, talk: Talk, place: Seq<char>) -> bool {
    match known {
        Some(path) => place == path,
        None => {
            &&& talk.len() > 0
            &&& talk.last().0 is LocateEach
            &&& talk.last().1 matches ReplyView::Places(places) && first_place(places) == Some(
                place,
            )
        },
    }
}

/// Where in the talk the file of the instance is written.
pub open spec fn file_written_at(meta: MetaView) -> int {
    if first_file(meta.source.relevants) is Some {
        1
    } else {
        3
    }
}

/// What is known of the instance once its file is written: a file that was not known is added.
pub open spec fn meta_with_file(meta: MetaView, talk: Talk) -> MetaView {
    if first_file(meta.source.relevants) is None && (talk[0].1 matches ReplyView::Kind(Some(_))) {
        MetaView {
            source: SourceView {
                relevants: meta.source.relevants.push(EntryView::File(talk[3].0->Write_path)),
                ..meta.source
            },
            ..meta
        }
    } else {
        meta
    }
}

/// The request is the next one to write the properties of an instance at `path`: the kind of file
/// of its class is asked for, files that are not known are looked for, the file gets all properties
/// and the data file exactly what the file left over, or all, where there is no kind of file.
pub open spec fn revision_fits(
    path: Seq<char>,
    name: Seq<char>,
    class: Seq<char>,
    properties: Map<Seq<char>, Variant>,
    meta: MetaView,
    talk: Talk,
    request: RequestView,
) -> bool {
    let file = first_file(meta.source.relevants);
    let data = first_data(meta.source.relevants);
    match request {
        RequestView::Middleware(asked) => talk.len() == 0 && asked == class,
        RequestView::IsDir(asked) => asked == path && talk.len() > 0 && match talk.last() {
            (RequestView::Middleware(_), ReplyView::Kind(Some(_))) => file is None,
            (RequestView::Middleware(_), ReplyView::Kind(None)) => data is None,
            (RequestView::Write { .. }, ReplyView::Rest(_)) => data is None,
            _ => false,
        },
        RequestView::LocateEach { rules, path: asked, name: by, is_dir } => {
            &&& asked == path
            &&& by == name
            &&& talk.len() > 1
            &&& talk.last() == (RequestView::IsDir(path), ReplyView::Flag(is_dir))
            &&& rules == numbers_of_type(
                meta.context,
                match talk[talk.len() - 2] {
                    (RequestView::Middleware(_), ReplyView::Kind(Some(middleware))) => middleware,
                    _ => Middleware::InstanceData,
                },
            )
        },
        RequestView::Write { middleware, properties: given, path: to } => {
            &&& given == properties
            &&& talk.len() == file_written_at(meta)
            &&& talk[0] == (RequestView::Middleware(class), ReplyView::Kind(Some(middleware)))
            &&& is_place_found(file, talk, to)
        },
        RequestView::WriteData { has_file, class: of, properties: given, path: to, meta: with } => {
            &&& of == class
            &&& is_place_found(data, talk, to)
            &&& talk.len() > 0
            &&& talk[0].0 == RequestView::Middleware(class)
            &&& with == meta_with_file(meta, talk)
            &&& if has_file {
                let at = file_written_at(meta);
                &&& talk[0].1 matches ReplyView::Kind(Some(_))
                &&& talk.len() > at
                &&& talk[at].0 is Write
                &&& talk[at].1 == ReplyView::Rest(given)
            } else {
                &&& talk[0].1 == ReplyView::Kind(None)
                &&& given == properties
            }
        },
        _ => false,
    }
}

/// The talk wrote the properties of an instance at `path`, and this is known of it now. What was
/// left unwritten for want of a place is noticed, and nothing else is left.
pub open spec fn revision_ends(
    path: Seq<char>,
    class: Seq<char>,
    meta: MetaView,
    talk: Talk,
    after: MetaView,
    notice: Option<NoticeView>,
) -> bool {
    let file = first_file(meta.source.relevants);
    let data = first_data(meta.source.relevants);
    let at = file_written_at(meta);
    &&& talk.len() > 0
    &&& talk[0].0 == RequestView::Middleware(class)
    &&& talk[0].1 is Kind
    &&& match notice {
        Some(NoticeView::NoFilePlace(place)) => {
            &&& place == path
            &&& file is None
            &&& talk.len() == 3
            &&& talk[0].1 matches ReplyView::Kind(Some(_))
            &&& talk[2].0 is LocateEach
            &&& talk[2].1 matches ReplyView::Places(places) && first_place(places) is None
            &&& after == meta
        },
        Some(NoticeView::NoDataPlace(place)) => {
            &&& place == path
            &&& data is None
            &&& talk.last().0 is LocateEach
            &&& talk.last().1 matches ReplyView::Places(places) && first_place(places) is None
            &&& after == meta_with_file(meta, talk)
        },
        Some(NoticeView::NoInstance(_)) => false,
        None => {
            &&& talk.last().0 is WriteData
            &&& talk.last().1 matches ReplyView::Data(written) && after == (MetaView {
                source: meta_with_file(meta, talk).source.set_data(written),
                ..meta
            })
        },
    }
    &&& !(notice matches Some(NoticeView::NoFilePlace(_))) ==> (talk[0].1 matches ReplyView::Kind(
        Some(_),
    ) ==> talk.len() > at && talk[at].0 is Write && talk[at].1 is Rest)
}

/// The talk is what writing properties asks and is told from `at` on.
spec fn is_revision_talk(
    path: Seq<char>,
    name: Seq<char>,
    class: Seq<char>,
    properties: Map<Seq<char>, Variant>,
    meta: MetaView,
    answers: Seq<ReplyView>,
    at: int,
    talk: Talk,
) -> bool {
    &&& 0 <= at
    &&& answers.len() == at + talk.len()
    &&& forall|j: int|
        0 <= j < talk.len() ==> (#[trigger] talk[j]).1 == answers[at + j] && (revising(
            path,
            name,
            class,
            properties,
            meta,
            answers.take(at + j),
            at,
        ) matches FlowView::Ask(asked) && asked == talk[j].0)
}

#[verifier::rlimit(60)]
proof fn lemma_revision_talk(
    path: Seq<char>,
    name: Seq<char>,
    class: Seq<char>,
    properties: Map<Seq<char>, Variant>,
    meta: MetaView,
    answers: Seq<ReplyView>,
    at: int,
    talk: Talk,
)
    requires
        is_revision_talk(path, name, class, properties, meta, answers, at, talk),
    ensures
        match revising(path, name, class, properties, meta, answers, at) {
            FlowView::Ask(request) => revision_fits(
                path,
                name,
                class,
                properties,
                meta,
                talk,
                request,
            ),
            FlowView::Done(revised) => revised.used == answers.len() ==> revision_ends(
                path,
                class,
                meta,
                talk,
                revised.meta,
                revised.notice,
            ),
            FlowView::Fail(_) => true,
        },
{
    assert(talk.len() > 0 ==> talk[0].1 == answers[at + 0]);
    assert(talk.len() > 1 ==> talk[1].1 == answers[at + 1]);
    assert(talk.len() > 2 ==> talk[2].1 == answers[at + 2]);
    assert(talk.len() > 3 ==> talk[3].1 == answers[at + 3]);
    assert(talk.len() > 4 ==> talk[4].1 == answers[at + 4]);
    assert(talk.len() > 5 ==> talk[5].1 == answers[at + 5]);
    assert(talk.len() > 6 ==> talk[6].1 == answers[at + 6]);
    if talk.len() > 3 {
        lemma_pushed(
            meta.source.relevants,
            EntryView::File(first_place(answers[at + 2]->Places_0)->0),
        );
    }
}

/// Writing properties does not depend on answers that it does not use.
proof fn lemma_revised_before(
    path: Seq<char>,
    name: Seq<char>,
    class: Seq<char>,
    properties: Map<Seq<char>, Variant>,
    meta: MetaView,
    answers: Seq<ReplyView>,
    at: int,
    k: int,
)
    requires
        0 <= at,
        revising(path, name, class, properties, meta, answers, at) matches FlowView::Done(revised)
            && revised.used <= k <= answers.len(),
    ensures
        revising(path, name, class, properties, meta, answers.take(k), at) == revising(
            path,
            name,
            class,
            properties,
            meta,
            answers,
            at,
        ),
        at < revising(path, name, class, properties, meta, answers, at)->Done_0.used,
{
}

/// Writing properties comes to the same when more answers are there.
proof fn lemma_revised_after(
    path: Seq<char>,
    name: Seq<char>,
    class: Seq<char>,
    properties: Map<Seq<char>, Variant>,
    meta: MetaView,
    answers: Seq<ReplyView>,
    at: int,
    k: int,
)
    requires
        0 <= at <= k <= answers.len(),
        revising(path, name, class, properties, meta, answers.take(k), at) is Done,
    ensures
        revising(path, name, class, properties, meta, answers, at) == revising(
            path,
            name,
            class,
            properties,
            meta,
            answers.take(k),
            at,
        ),
        revising(path, name, class, properties, meta, answers, at)->Done_0.used <= k,
{
    let part = answers.take(k);
    assert forall|j: int| 0 <= j < k implies part[j] == answers[j] by {}
}

/// A path after its instance got another name: the name is replaced in the path's last name.
pub open spec fn new_place(path: Seq<char>, from: Seq<char>, to: Seq<char>) -> Seq<char> {
    with_name(path, replaced(name_of(path), from, to))
}

/// A file or folder after its instance got another name. Project files stay.
pub open spec fn new_entry(entry: EntryView, from: Seq<char>, to: Seq<char>) -> EntryView {
    match entry {
        EntryView::Project(_) => entry,
        EntryView::File(path) => EntryView::File(new_place(path, from, to)),
        EntryView::Folder(path) => EntryView::Folder(new_place(path, from, to)),
        EntryView::Data(path) => EntryView::Data(new_place(path, from, to)),
    }
}

/// What is known of an instance at `path` after it got another name, if it did.
pub open spec fn meta_after_rename(
    instance: InstanceView,
    path: Seq<char>,
    name: Option<Seq<char>>,
) -> MetaView {
    match name {
        None => instance.meta,
        Some(name) => MetaView {
            source: SourceView {
                inner: KindView::Path(new_place(path, instance.name, name)),
                relevants: Seq::new(
                    instance.meta.source.relevants.len(),
                    |i: int| new_entry(instance.meta.source.relevants[i], instance.name, name),
                ),
            },
            ..instance.meta
        },
    }
}

proof fn lemma_own_longer(entries: Seq<EntryView>, last: EntryView)
    ensures
        own_entries(entries.push(last)) == (if last is Project {
            own_entries(entries)
        } else {
            own_entries(entries).push(last)
        }),
    decreases entries.len(),
{
    let all = entries.push(last);
    if entries.len() > 0 {
        assert(all.skip(1) =~= entries.skip(1).push(last));
        assert(all[0] == entries[0]);
        lemma_own_longer(entries.skip(1), last);
        let rest = own_entries(entries.skip(1));
        assert(seq![entries[0]] + rest.push(last) =~= (seq![entries[0]] + rest).push(last));
    } else {
        reveal_with_fuel(own_entries, 2);
        assert(all.skip(1).len() == 0);
        assert(all[0] == last);
        assert(own_entries(entries) =~= Seq::empty());
        assert(seq![last] + Seq::empty() =~= Seq::empty().push(last));
    }
}

/// What has to be moved is each file and folder of the instance that is no project file, in order.
proof fn lemma_moves(entries: Seq<EntryView>, from: Seq<char>, to: Seq<char>)
    ensures
        moves(entries, from, to).len() == own_entries(entries).len(),
        forall|i: int|
            0 <= i < moves(entries, from, to).len() ==> #[trigger] moves(entries, from, to)[i]
                == RequestView::Rename(
                own_entries(entries)[i].path(),
                new_place(own_entries(entries)[i].path(), from, to),
            ),
    decreases entries.len(),
{
    if entries.len() > 0 {
        let before = entries.drop_last();
        lemma_moves(before, from, to);
        assert(before.push(entries.last()) =~= entries);
        lemma_own_longer(before, entries.last());
    }
}

/// Requests are carried out one after the other.
proof fn lemma_carried_out(requests: Seq<RequestView>, answers: Seq<ReplyView>, at: int)
    requires
        0 <= at <= answers.len(),
    ensures
        match carrying_out(requests, answers, at) {
            FlowView::Ask(request) => {
                &&& answers.len() - at < requests.len()
                &&& request == requests[answers.len() - at]
            },
            FlowView::Done(_) => {
                &&& at + requests.len() <= answers.len()
                &&& forall|j: int| 0 <= j < requests.len() ==> (#[trigger] answers[at + j]) is Done
            },
            FlowView::Fail(error) => exists|j: int|
                #![trigger answers[at + j]]
                0 <= j < requests.len() && at + j < answers.len() && !(answers[at + j] is Done)
                    && error == refusal(answers[at + j]),
        },
        (forall|j: int|
            0 <= j < requests.len() && at + j < answers.len() ==> (#[trigger] answers[at + j])
                is Done) ==> !(carrying_out(requests, answers, at) is Fail),
    decreases requests.len(),
{
    if requests.len() > 0 && at < answers.len() {
        assert(answers[at + 0] == answers[at]);
        lemma_carried_out(requests.skip(1), answers, at + 1);
        match carrying_out(requests, answers, at) {
            FlowView::Ask(request) => {
                assert(requests.skip(1)[answers.len() - at - 1] == requests[answers.len() - at]);
            },
            FlowView::Done(_) => {
                assert forall|j: int| 0 <= j < requests.len() implies (#[trigger] answers[at + j])
                    is Done by {
                    if j > 0 {
                        assert(answers[at + 1 + (j - 1)] is Done);
                    }
                }
            },
            FlowView::Fail(error) => {
                if answers[at] is Done {
                    let j = choose|j: int|
                        #![trigger answers[at + 1 + j]]
                        0 <= j < requests.skip(1).len() && at + 1 + j < answers.len() && !(
                        answers[at + 1 + j] is Done) && error == refusal(answers[at + 1 + j]);
                    assert(answers[at + (j + 1)] == answers[at + 1 + j]);
                }
            },
        }
        if forall|j: int|
            0 <= j < requests.len() && at + j < answers.len() ==> (#[trigger] answers[at + j])
                is Done {
            assert(answers[at + 0] is Done);
            assert forall|j: int|
                0 <= j < requests.skip(1).len() && at + 1 + j < answers.len() implies (
            #[trigger] answers[at + 1 + j]) is Done by {
                assert(answers[at + (j + 1)] is Done);
            }
        }
    }
}

/// How many files and folders an update moves before it writes properties.
pub open spec fn count_moved(instance: InstanceView, name: Option<Seq<char>>) -> int {
    if name is Some {
        own_entries(instance.meta.source.relevants).len() as int
    } else {
        0
    }
}

/// The name that an instance has after an update.
pub open spec fn name_after(instance: InstanceView, name: Option<Seq<char>>) -> Seq<char> {
    match name {
        Some(name) => name,
        None => instance.name,
    }
}

/// The project after the properties of a node were written: of the node only the properties, tags
/// and what becomes of unknown children have changed, and the attributes where it is kept
/// elsewhere, and nothing else in the project has.
pub open spec fn node_is_revised(
    loaded: NodeView,
    revised: NodeView,
    path: Seq<Seq<char>>,
    own: Seq<char>,
    properties: Option<Map<Seq<char>, Variant>>,
    elsewhere: bool,
) -> bool {
    match properties {
        None => revised == loaded,
        Some(given) => {
            &&& same_elsewhere(revised, loaded, path)
            &&& match (node_at(loaded, path), node_at(revised, path)) {
                (Some(before), Some(after)) => {
                    &&& after.class_name == before.class_name
                    &&& after.path == before.path
                    &&& after.tree == before.tree
                    &&& after.tags.len() == 0
                    &&& after.keep_unknowns is None
                    &&& if elsewhere {
                        after.attributes is None && after.properties.dom() == Set::<
                            Seq<char>,
                        >::empty()
                    } else {
                        after.attributes == before.attributes && after.properties == serialized(
                            match before.class_name {
                                Some(class) => class,
                                None => own,
                            },
                            validated(given),
                        )
                    }
                },
                _ => false,
            }
        },
    }
}

/// The project after a node was renamed: the node is what it was, under its new name, in place of
/// a node that had that name, and nothing else in the project has changed.
pub open spec fn node_is_renamed(
    before: NodeView,
    after: NodeView,
    above: Seq<Seq<char>>,
    own: Seq<char>,
    name: Option<Seq<char>>,
) -> bool {
    match name {
        None => after == before,
        Some(new) => {
            &&& same_elsewhere(after, before, above)
            &&& match (node_at(before, above), node_at(after, above)) {
                (Some(b), Some(a)) => {
                    &&& own_words(a) == own_words(b)
                    &&& b.tree.contains_key(own)
                    &&& a.tree.contains_key(new)
                    &&& a.tree[new] == b.tree[own]
                    &&& own != new ==> !a.tree.contains_key(own)
                    &&& forall|other: Seq<char>|
                        other != own && other != new ==> (#[trigger] a.tree.contains_key(other)
                            <==> b.tree.contains_key(other))
                    &&& forall|other: Seq<char>|
                        other != own && other != new && b.tree.contains_key(other)
                            ==> #[trigger] a.tree[other] == b.tree[other]
                },
                _ => false,
            }
        },
    }
}

/// The project that is saved is the one that was loaded with the properties and the name of a node
/// changed.
pub open spec fn project_is_updated(
    loaded: NodeView,
    saved: NodeView,
    own: Seq<char>,
    node_path: Seq<Seq<char>>,
    name: Option<Seq<char>>,
    properties: Option<Map<Seq<char>, Variant>>,
    elsewhere: bool,
) -> bool {
    exists|between: NodeView|
        #[trigger] node_is_revised(loaded, between, node_path, own, properties, elsewhere)
            && node_is_renamed(between, saved, parent_path(node_path), own, name)
}

/// The request is the next one of an update: files are moved and then properties written, or a
/// project is loaded, properties are written to files where the node says so, and the project is
/// saved.
pub open spec fn update_fits(
    instance: InstanceView,
    name: Option<Seq<char>>,
    properties: Option<Map<Seq<char>, Variant>>,
    talk: Talk,
    request: RequestView,
) -> bool {
    let own = own_entries(instance.meta.source.relevants);
    match instance.meta.source.inner {
        KindView::Path(path) => {
            let count = count_moved(instance, name);
            if talk.len() < count {
                let from = own[talk.len() as int].path();
                request == RequestView::Rename(from, new_place(from, instance.name, name->0))
            } else {
                properties matches Some(given) && revision_fits(
                    path,
                    name_after(instance, name),
                    instance.class,
                    validated(given),
                    meta_after_rename(instance, path, name),
                    talk.skip(count),
                    request,
                )
            }
        },
        KindView::Project(own, path, node, node_path) => if talk.len() == 0 {
            request == RequestView::Load(path)
        } else {
            &&& talk[0].0 == RequestView::Load(path)
            &&& talk[0].1 matches ReplyView::Project(loaded) && match request {
                RequestView::Save { path: file, project } => {
                    &&& file == path
                    &&& project_is_updated(
                        loaded,
                        project,
                        own,
                        node_path,
                        name,
                        properties,
                        node.path is Some,
                    )
                    &&& if properties is Some && node.path is Some {
                        exists|after: MetaView, notice: Option<NoticeView>| #[trigger]
                            revision_ends(
                                custom_place(path, node.path->0),
                                instance.class,
                                instance.meta,
                                talk.skip(1),
                                after,
                                notice,
                            )
                    } else {
                        talk.len() == 1
                    }
                },
                _ => properties is Some && node.path is Some && revision_fits(
                    custom_place(path, node.path->0),
                    instance.name,
                    instance.class,
                    validated(properties->0),
                    instance.meta,
                    talk.skip(1),
                    request,
                ),
            }
        },
        KindView::Nowhere => false,
    }
}

/// What an instance has become by an update that succeeded, and what was left unwritten.
pub open spec fn update_succeeds(
    instance: InstanceView,
    name: Option<Seq<char>>,
    properties: Option<Map<Seq<char>, Variant>>,
    talk: Talk,
    after: InstanceView,
    notice: Option<NoticeView>,
) -> bool {
    &&& after.name == name_after(instance, name)
    &&& after.properties == (match properties {
        Some(given) => validated(given),
        None => instance.properties,
    })
    &&& match instance.meta.source.inner {
        KindView::Path(path) => {
            let count = count_moved(instance, name);
            let moved = meta_after_rename(instance, path, name);
            &&& talk.len() >= count
            &&& forall|j: int| 0 <= j < count ==> (#[trigger] talk[j]).1 is Done
            &&& if properties is Some {
                revision_ends(
                    path,
                    instance.class,
                    moved,
                    talk.skip(count),
                    after.meta,
                    notice,
                )
            } else {
                talk.len() == count && after.meta == moved && notice is None
            }
        },
        KindView::Project(own, path, node, node_path) => {
            &&& talk.len() > 1
            &&& talk.last().0 is Save
            &&& talk.last().1 is Done
            &&& is_project_meta(instance, own, path, node_path, name, talk, after.meta)
            &&& if properties is Some && node.path is Some {
                exists|written: MetaView|
                    written.source.relevants == after.meta.source.relevants
                        && #[trigger] revision_ends(
                        custom_place(path, node.path->0),
                        instance.class,
                        instance.meta,
                        talk.drop_last().skip(1),
                        written,
                        notice,
                    )
            } else {
                talk.len() == 2 && after.meta.source.relevants == instance.meta.source.relevants
                    && notice is None
            }
        },
        KindView::Nowhere => false,
    }
}

/// The main place of an instance that is a node of a project, and the rest of what is known of it,
/// after an update: the node under its new name in the project that was last asked to be saved.
pub open spec fn is_project_meta(
    instance: InstanceView,
    own: Seq<char>,
    path: Seq<char>,
    node_path: Seq<Seq<char>>,
    name: Option<Seq<char>>,
    talk: Talk,
    after: MetaView,
) -> bool {
    &&& after.context == instance.meta.context
    &&& after.keep_unknowns == instance.meta.keep_unknowns
    &&& match name {
        None => after.source.inner == instance.meta.source.inner,
        Some(new) => after.source.inner matches KindView::Project(called, file, node, way) && called
            == new && file == path && way == parent_path(node_path).push(new) && node_at(
            talk.last().0->project,
            way,
        ) == Some(node),
    }
}

/// The talk is what an update asks and is told.
spec fn is_update_talk(
    instance: InstanceView,
    name: Option<Seq<char>>,
    properties: Option<Map<Seq<char>, Variant>>,
    talk: Talk,
    answers: Seq<ReplyView>,
) -> bool {
    &&& answers.len() == talk.len()
    &&& forall|j: int|
        0 <= j < talk.len() ==> (#[trigger] talk[j]).1 == answers[j] && (updating(
            instance,
            name,
            properties,
            answers.take(j),
        ) matches FlowView::Ask(asked) && asked == talk[j].0)
}

/// Files are moved before anything else, and the rest of the talk writes properties.
proof fn lemma_path_talk(
    instance: InstanceView,
    path: Seq<char>,
    name: Option<Seq<char>>,
    properties: Option<Map<Seq<char>, Variant>>,
    talk: Talk,
    answers: Seq<ReplyView>,
)
    requires
        is_update_talk(instance, name, properties, talk, answers),
        instance.meta.source.inner == KindView::Path(path),
    ensures
        match updating(instance, name, properties, answers) {
            FlowView::Ask(request) => update_fits(instance, name, properties, talk, request),
            FlowView::Done(end) => end.result is Ok ==> update_succeeds(
                instance,
                name,
                properties,
                talk,
                end.change.applied(instance),
                end.notice,
            ),
            FlowView::Fail(_) => true,
        },
{
    let n = answers.len() as int;
    let entries = instance.meta.source.relevants;
    let count = count_moved(instance, name);
    let meta = meta_after_rename(instance, path, name);
    let called = name_after(instance, name);
    let rest = talk.skip(count);
    assert(answers.take(n) =~= answers);
    match name {
        Some(new) => {
            let requests = moves(entries, instance.name, new);
            lemma_moves(entries, instance.name, new);
            lemma_carried_out(requests, answers, 0);
            assert(renamed_meta(instance.meta, path, instance.name, new).source.relevants
                =~= meta.source.relevants);
            assert(renamed_meta(instance.meta, path, instance.name, new) == meta);
            if carrying_out(requests, answers, 0) is Done {
                assert forall|k: int| count <= k <= n implies carrying_out(
                    requests,
                    #[trigger] answers.take(k),
                    0,
                ) is Done by {
                    let part = answers.take(k);
                    lemma_carried_out(requests, part, 0);
                    assert forall|j: int|
                        0 <= j < requests.len() && 0 + j < part.len() implies (
                    #[trigger] part[0 + j]) is Done by {
                        assert(answers[0 + j] is Done);
                    }
                }
                assert forall|j: int| 0 <= j < count implies (#[trigger] talk[j]).1 is Done by {
                    assert(answers[0 + j] is Done);
                }
            }
        },
        None => {},
    }
    let moved = name matches Some(new) ==> carrying_out(
        moves(entries, instance.name, new),
        answers,
        0,
    ) is Done;
    if moved {
        assert(count <= n);
        match properties {
            Some(given) => {
                let meant = validated(given);
                assert forall|j: int| 0 <= j < rest.len() implies (#[trigger] rest[j]).1
                    == answers[count + j] && (revising(
                    path,
                    called,
                    instance.class,
                    meant,
                    meta,
                    answers.take(count + j),
                    count,
                ) matches FlowView::Ask(asked) && asked == rest[j].0) by {
                    assert(rest[j] == talk[count + j]);
                }
                lemma_revision_talk(
                    path,
                    called,
                    instance.class,
                    meant,
                    meta,
                    answers,
                    count,
                    rest,
                );
                match revising(path, called, instance.class, meant, meta, answers, count) {
                    FlowView::Done(revised) => {
                        lemma_revised_after(
                            path,
                            called,
                            instance.class,
                            meant,
                            meta,
                            answers,
                            count,
                            n,
                        );
                        if revised.used < n {
                            lemma_revised_before(
                                path,
                                called,
                                instance.class,
                                meant,
                                meta,
                                answers,
                                count,
                                n - 1,
                            );
                            assert(talk[n - 1].1 == answers[n - 1]);
                        }
                    },
                    _ => {},
                }
            },
            None => {
                if n > count {
                    assert(talk[n - 1].1 == answers[n - 1]);
                }
            },
        }
    }
}

/// The project that is saved has the changes of the update, and no others.
proof fn lemma_saved(
    loaded: NodeView,
    between: NodeView,
    own: Seq<char>,
    node_path: Seq<Seq<char>>,
    name: Option<Seq<char>>,
    properties: Option<Map<Seq<char>, Variant>>,
    elsewhere: bool,
)
    requires
        properties is None ==> between == loaded,
        properties matches Some(given) ==> (node_at(loaded, node_path) matches Some(found)
            && between == with_node_at(
            loaded,
            node_path,
            if elsewhere {
                cleared(found)
            } else {
                rewritten(found, own, validated(given))
            },
        )),
    ensures
        node_is_revised(loaded, between, node_path, own, properties, elsewhere),
        name is None ==> node_is_renamed(between, between, parent_path(node_path), own, name),
        name matches Some(new) ==> (node_at(between, parent_path(node_path)) matches Some(parent)
            && parent.tree.contains_key(own)) ==> {
            let above = parent_path(node_path);
            let parent = node_at(between, above)->0;
            let saved = with_node_at(between, above, renamed_child(parent, own, name->0));
            &&& node_is_renamed(between, saved, above, own, name)
            &&& node_at(saved, above.push(name->0)) == Some(parent.tree[own])
        },
{
    match properties {
        Some(given) => {
            let found = node_at(loaded, node_path)->0;
            let new = if elsewhere {
                cleared(found)
            } else {
                rewritten(found, own, validated(given))
            };
            replacing_a_node_keeps_the_others(loaded, node_path, new);
            assert(Map::<Seq<char>, UnresolvedView>::empty().dom() =~= Set::empty());
        },
        None => {},
    }
    let above = parent_path(node_path);
    match (name, node_at(between, above)) {
        (Some(new), Some(parent)) => {
            if parent.tree.contains_key(own) {
                let changed = renamed_child(parent, own, new);
                replacing_a_node_keeps_the_others(between, above, changed);
                paths_lead_down_by_names(with_node_at(between, above, changed), above, new);
                assert(own_words(changed) == own_words(parent));
            }
        },
        _ => {},
    }
}

/// A project is loaded first and saved last.
proof fn lemma_project_talk(
    instance: InstanceView,
    own: Seq<char>,
    path: Seq<char>,
    node: NodeView,
    node_path: Seq<Seq<char>>,
    name: Option<Seq<char>>,
    properties: Option<Map<Seq<char>, Variant>>,
    talk: Talk,
    answers: Seq<ReplyView>,
)
    requires
        is_update_talk(instance, name, properties, talk, answers),
        instance.meta.source.inner == KindView::Project(own, path, node, node_path),
        properties is None || node.path is None,
    ensures
        match updating(instance, name, properties, answers) {
            FlowView::Ask(request) => update_fits(instance, name, properties, talk, request),
            FlowView::Done(end) => end.result is Ok ==> update_succeeds(
                instance,
                name,
                properties,
                talk,
                end.change.applied(instance),
                end.notice,
            ),
            FlowView::Fail(_) => true,
        },
{
    let n = answers.len() as int;
    assert(answers.take(0).len() == 0);
    if n > 0 {
        assert(talk[0].1 == answers[0]);
        let loaded = answers[0]->Project_0;
        let between = match properties {
            Some(given) => with_node_at(
                loaded,
                node_path,
                rewritten(node_at(loaded, node_path)->0, own, validated(given)),
            ),
            None => loaded,
        };
        if properties is None || node_at(loaded, node_path) is Some {
            lemma_saved(loaded, between, own, node_path, name, properties, node.path is Some);
        }
        if n > 1 {
            assert(answers.take(1)[0] == answers[0]);
            assert(answers.take(1).len() == 1);
            assert(talk[1].1 == answers[1]);
        }
        if n > 2 {
            assert(answers.take(2)[0] == answers[0]);
            assert(answers.take(2)[1] == answers[1]);
            assert(talk[2].1 == answers[2]);
        }
        match updating(instance, name, properties, answers) {
            FlowView::Ask(request) => {
                assert(n == 1);
                assert(node_is_revised(
                    loaded,
                    between,
                    node_path,
                    own,
                    properties,
                    node.path is Some,
                ));
            },
            _ => {},
        }
    }
}

/// What was asked and told between loading and saving wrote the properties.
proof fn lemma_elsewhere_written(
    instance: InstanceView,
    own: Seq<char>,
    path: Seq<char>,
    node: NodeView,
    node_path: Seq<Seq<char>>,
    name: Option<Seq<char>>,
    given: Map<Seq<char>, Variant>,
    talk: Talk,
    answers: Seq<ReplyView>,
)
    requires
        is_update_talk(instance, name, Some(given), talk, answers),
        instance.meta.source.inner == KindView::Project(own, path, node, node_path),
        node.path is Some,
        answers.len() > 0,
        revising(
            custom_place(path, node.path->0),
            instance.name,
            instance.class,
            validated(given),
            instance.meta,
            answers,
            1,
        ) is Done,
    ensures
        ({
            let place = custom_place(path, node.path->0);
            let revised = revising(
                place,
                instance.name,
                instance.class,
                validated(given),
                instance.meta,
                answers,
                1,
            )->Done_0;
            &&& 1 < revised.used <= answers.len()
            &&& revision_ends(
                place,
                instance.class,
                instance.meta,
                talk.take(revised.used).skip(1),
                revised.meta,
                revised.notice,
            )
        }),
{
    let n = answers.len() as int;
    let place = custom_place(path, node.path->0);
    let meant = validated(given);
    let meta = instance.meta;
    let class = instance.class;
    let revised = revising(place, instance.name, class, meant, meta, answers, 1)->Done_0;
    assert(answers.take(n) =~= answers);
    let used = revised.used;
    lemma_revised_after(place, instance.name, class, meant, meta, answers, 1, n);
    lemma_revised_before(place, instance.name, class, meant, meta, answers, 1, used);
    let part = answers.take(used);
    let inner = talk.take(used).skip(1);
    assert forall|j: int| 0 <= j < inner.len() implies (#[trigger] inner[j]).1
        == part[1 + j] && (revising(
        place,
        instance.name,
        class,
        meant,
        meta,
        part.take(1 + j),
        1,
    ) matches FlowView::Ask(asked) && asked == inner[j].0) by {
        assert(inner[j] == talk[1 + j]);
        assert(part.take(1 + j) =~= answers.take(1 + j));
        assert(answers.take(1 + j)[0] == answers[0]);
        if revising(
            place,
            instance.name,
            class,
            meant,
            meta,
            answers.take(1 + j),
            1,
        ) is Done {
            lemma_revised_after(
                place,
                instance.name,
                class,
                meant,
                meta,
                answers,
                1,
                1 + j,
            );
        }
    }
    lemma_revision_talk(place, instance.name, class, meant, meta, part, 1, inner);
    assert(revision_ends(place, class, meta, inner, revised.meta, revised.notice));
}

/// The properties of a node that is kept elsewhere are written between loading and saving.
proof fn lemma_elsewhere_talk(
    instance: InstanceView,
    own: Seq<char>,
    path: Seq<char>,
    node: NodeView,
    node_path: Seq<Seq<char>>,
    name: Option<Seq<char>>,
    given: Map<Seq<char>, Variant>,
    talk: Talk,
    answers: Seq<ReplyView>,
)
    requires
        is_update_talk(instance, name, Some(given), talk, answers),
        instance.meta.source.inner == KindView::Project(own, path, node, node_path),
        node.path is Some,
    ensures
        match updating(instance, name, Some(given), answers) {
            FlowView::Ask(request) => update_fits(instance, name, Some(given), talk, request),
            FlowView::Done(end) => end.result is Ok ==> update_succeeds(
                instance,
                name,
                Some(given),
                talk,
                end.change.applied(instance),
                end.notice,
            ),
            FlowView::Fail(_) => true,
        },
{
    let n = answers.len() as int;
    let place = custom_place(path, node.path->0);
    let meant = validated(given);
    let meta = instance.meta;
    let class = instance.class;
    assert(answers.take(0).len() == 0);
    assert(answers.take(n) =~= answers);
    if n > 0 {
        assert(talk[0].1 == answers[0]);
        let loaded = answers[0]->Project_0;
        let between = with_node_at(loaded, node_path, cleared(node_at(loaded, node_path)->0));
        if node_at(loaded, node_path) is Some {
            lemma_saved(loaded, between, own, node_path, name, Some(given), true);
        }
        match revising(place, instance.name, class, meant, meta, answers, 1) {
            FlowView::Done(revised) => {
                let used = revised.used;
                let inner = talk.take(used).skip(1);
                lemma_elsewhere_written(
                    instance,
                    own,
                    path,
                    node,
                    node_path,
                    name,
                    given,
                    talk,
                    answers,
                );
                if n > used {
                    let before = n - 1;
                    assert(talk[before].1 == answers[before]);
                    assert(answers.take(before)[0] == answers[0]);
                    lemma_revised_before(
                        place,
                        instance.name,
                        class,
                        meant,
                        meta,
                        answers,
                        1,
                        before,
                    );
                    if used < before {
                        assert(answers.take(before)[used] == answers[used]);
                    }
                    assert(inner =~= talk.drop_last().skip(1));
                } else {
                    assert(inner =~= talk.skip(1));
                }
                assert(node_at(loaded, node_path) is Some ==> node_is_revised(
                    loaded,
                    between,
                    node_path,
                    own,
                    Some(given),
                    true,
                ));
            },
            FlowView::Ask(request) => {
                let inner = talk.skip(1);
                assert forall|j: int| 0 <= j < inner.len() implies (#[trigger] inner[j]).1
                    == answers[1 + j] && (revising(
                    place,
                    instance.name,
                    class,
                    meant,
                    meta,
                    answers.take(1 + j),
                    1,
                ) matches FlowView::Ask(asked) && asked == inner[j].0) by {
                    assert(inner[j] == talk[1 + j]);
                    assert(answers.take(1 + j)[0] == answers[0]);
                    if revising(
                        place,
                        instance.name,
                        class,
                        meant,
                        meta,
                        answers.take(1 + j),
                        1,
                    ) is Done {
                        lemma_revised_after(
                            place,
                            instance.name,
                            class,
                            meant,
                            meta,
                            answers,
                            1,
                            1 + j,
                        );
                    }
                }
                lemma_revision_talk(place, instance.name, class, meant, meta, answers, 1, inner);
            },
            FlowView::Fail(_) => {},
        }
    }
}

proof fn lemma_update_fits(
    instance: InstanceView,
    name: Option<Seq<char>>,
    properties: Option<Map<Seq<char>, Variant>>,
    talk: Talk,
    answers: Seq<ReplyView>,
)
    requires
        is_update_talk(instance, name, properties, talk, answers),
        !(instance.meta.source.inner is Nowhere),
    ensures
        match updating(instance, name, properties, answers) {
            FlowView::Ask(request) => update_fits(instance, name, properties, talk, request),
            FlowView::Done(end) => end.result is Ok ==> update_succeeds(
                instance,
                name,
                properties,
                talk,
                end.change.applied(instance),
                end.notice,
            ),
            FlowView::Fail(_) => true,
        },
{
    match instance.meta.source.inner {
        KindView::Path(path) => {
            lemma_path_talk(instance, path, name, properties, talk, answers);
        },
        KindView::Project(own, path, node, node_path) => {
            if properties is Some && node.path is Some {
                lemma_elsewhere_talk(
                    instance,
                    own,
                    path,
                    node,
                    node_path,
                    name,
                    properties->0,
                    talk,
                    answers,
                );
            } else {
                lemma_project_talk(
                    instance,
                    own,
                    path,
                    node,
                    node_path,
                    name,
                    properties,
                    talk,
                    answers,
                );
            }
        },
        KindView::Nowhere => {},
    }
}

spec fn update_talk_is_heard(
    instance: InstanceView,
    name: Option<Seq<char>>,
    properties: Option<Map<Seq<char>, Variant>>,
    replies: Seq<ReplyView>,
    talk: Talk,
    k: int,
) -> bool {
    is_update_talk(instance, name, properties, talk.take(k), replies.take(k))
}

proof fn lemma_heard(
    id: Ref,
    name: Option<Seq<char>>,
    properties: Option<Map<Seq<char>, Variant>>,
    tree: TreeView,
    replies: Seq<ReplyView>,
)
    requires
        tree.contains_key(id),
    ensures
        ({
            let started = update_started(id, name, properties, tree);
            let talk = update_talk(started, replies);
            let n = talk.len() as int;
            &&& forall|k: int|
                0 <= k <= talk.len() ==> #[trigger] update_talk_is_heard(
                    tree[id],
                    name,
                    properties,
                    replies,
                    talk,
                    k,
                )
            &&& update_run(started, replies) == update_step(
                UpdateView { tree, id, name, properties, answers: replies.take(n) },
            )
            &&& n <= replies.len()
            &&& talk.take(n) == talk
        }),
{
    let start = UpdateView { tree, id, name, properties, answers: Seq::empty() };
    let talk = update_talk(update_started(id, name, properties, tree), replies);
    let n = talk.len() as int;
    lemma_update_talk(start, replies);
    assert forall|k: int| 0 <= k <= replies.len() implies #[trigger] update_after(
        start,
        replies,
        k,
    ).answers == replies.take(k) by {
        assert(Seq::<ReplyView>::empty() + replies.take(k) =~= replies.take(k));
    }
    assert(update_after(start, replies, n).answers == replies.take(n));
    assert(talk.take(n) =~= talk);
    assert forall|k: int| 0 <= k <= talk.len() implies #[trigger] update_talk_is_heard(
        tree[id],
        name,
        properties,
        replies,
        talk,
        k,
    ) by {
        let part = talk.take(k);
        assert forall|j: int| 0 <= j < part.len() implies (#[trigger] part[j]).1 == replies.take(
            k,
        )[j] && (updating(
            tree[id],
            name,
            properties,
            replies.take(k).take(j),
        ) matches FlowView::Ask(asked) && asked == part[j].0) by {
            assert(part[j] == talk[j]);
            assert(replies.take(k).take(j) =~= replies.take(j));
            assert(update_after(start, replies, j).answers == replies.take(j));
        }
    }
}

/// Each request of an update is the one that is due after what was asked and told before. The file
/// of an instance gets all properties that were given, and its data file exactly what the file left
/// over, or all, where its class has no kind of file. The project that is saved is the one that was
/// loaded but for the properties, tags and treatment of unknown children, and the name, of the
/// instance's own node.
pub proof fn update_asks_what_is_due(
    id: Ref,
    name: Option<Seq<char>>,
    properties: Option<Map<Seq<char>, Variant>>,
    tree: TreeView,
    replies: Seq<ReplyView>,
)
    requires
        tree.contains_key(id),
        !(tree[id].meta.source.inner is Nowhere),
    ensures
        ({
            let started = update_started(id, name, properties, tree);
            let talk = update_talk(started, replies);
            &&& forall|k: int|
                0 <= k < talk.len() ==> update_fits(
                    tree[id],
                    name,
                    properties,
                    talk.take(k),
                    (#[trigger] talk[k]).0,
                )
            &&& update_run(started, replies) matches StepView::Ask(request, _) ==> update_fits(
                tree[id],
                name,
                properties,
                talk,
                request,
            )
        }),
{
    let instance = tree[id];
    let started = update_started(id, name, properties, tree);
    let talk = update_talk(started, replies);
    let n = talk.len() as int;
    lemma_heard(id, name, properties, tree, replies);
    assert forall|k: int| 0 <= k < talk.len() implies update_fits(
        instance,
        name,
        properties,
        talk.take(k),
        (#[trigger] talk[k]).0,
    ) by {
        assert(update_talk_is_heard(instance, name, properties, replies, talk, k));
        assert(update_talk_is_heard(instance, name, properties, replies, talk, k + 1));
        assert(talk.take(k + 1)[k] == talk[k]);
        assert(replies.take(k + 1).take(k) =~= replies.take(k));
        lemma_update_fits(instance, name, properties, talk.take(k), replies.take(k));
    }
    assert(update_talk_is_heard(instance, name, properties, replies, talk, n));
    lemma_update_fits(instance, name, properties, talk, replies.take(n));
}

/// When an update succeeds, all files were moved and all properties were written that had a place,
/// and the instance is what this came to.
pub proof fn successful_update_is_complete(
    id: Ref,
    name: Option<Seq<char>>,
    properties: Option<Map<Seq<char>, Variant>>,
    tree: TreeView,
    replies: Seq<ReplyView>,
)
    requires
        tree.contains_key(id),
        !(tree[id].meta.source.inner is Nowhere),
    ensures
        ({
            let started = update_started(id, name, properties, tree);
            update_run(started, replies) matches StepView::Stop(Ok(_), after, notice)
                ==> update_succeeds(
                tree[id],
                name,
                properties,
                update_talk(started, replies),
                after[id],
                notice,
            )
        }),
{
    let started = update_started(id, name, properties, tree);
    let talk = update_talk(started, replies);
    let n = talk.len() as int;
    lemma_heard(id, name, properties, tree, replies);
    assert(update_talk_is_heard(tree[id], name, properties, replies, talk, n));
    lemma_update_fits(tree[id], name, properties, talk, replies.take(n));
}

/// Writing properties fails only with the reply that came last.
proof fn lemma_revision_fails(
    path: Seq<char>,
    name: Seq<char>,
    class: Seq<char>,
    properties: Map<Seq<char>, Variant>,
    meta: MetaView,
    answers: Seq<ReplyView>,
    at: int,
)
    requires
        0 <= at < answers.len(),
        revising(path, name, class, properties, meta, answers.drop_last(), at) is Ask,
        revising(path, name, class, properties, meta, answers, at) is Fail,
    ensures
        revising(path, name, class, properties, meta, answers, at)->Fail_0 == refusal(
            answers.last(),
        ),
{
}

/// What was left unwritten of an instance that is a node of a project, after the project was loaded
/// and, where the instance is kept elsewhere, its properties were written.
pub open spec fn is_noted(
    instance: InstanceView,
    path: Seq<char>,
    node: NodeView,
    properties: Option<Map<Seq<char>, Variant>>,
    talk: Talk,
    notice: Option<NoticeView>,
) -> bool {
    if properties is Some && node.path is Some {
        exists|written: MetaView| #[trigger]
            revision_ends(
                custom_place(path, node.path->0),
                instance.class,
                instance.meta,
                talk.skip(1),
                written,
                notice,
            )
    } else {
        talk.len() == 1 && notice is None
    }
}

/// What an instance has become by an update that failed.
pub open spec fn update_fails(
    instance: InstanceView,
    name: Option<Seq<char>>,
    properties: Option<Map<Seq<char>, Variant>>,
    talk: Talk,
    error: ErrorView,
    after: InstanceView,
    notice: Option<NoticeView>,
) -> bool {
    let with_properties = InstanceView {
        properties: match properties {
            Some(given) => validated(given),
            None => instance.properties,
        },
        ..instance
    };
    &&& talk.len() > 0
    &&& match instance.meta.source.inner {
        KindView::Path(_) => {
            &&& notice is None
            &&& error == refusal(talk.last().1)
            &&& after == (InstanceView {
                name: if talk.len() > count_moved(instance, name) {
                    name_after(instance, name)
                } else {
                    instance.name
                },
                ..instance
            })
        },
        KindView::Project(own, path, node, node_path) => if talk.last().0 is Save {
            &&& error == refusal(talk.last().1)
            &&& after == (InstanceView {
                name: name_after(instance, name),
                meta: after.meta,
                ..with_properties
            })
            &&& is_project_meta(instance, own, path, node_path, name, talk, after.meta)
            &&& is_noted(instance, path, node, properties, talk.drop_last(), notice)
        } else {
            match error {
                ErrorView::NoNode(way) => {
                    &&& is_noted(instance, path, node, properties, talk, notice)
                    &&& way == node_path
                    &&& properties is Some
                    &&& talk[0].1 matches ReplyView::Project(loaded) && node_at(loaded, node_path)
                        is None
                    &&& after == (if node.path is Some {
                        with_properties
                    } else {
                        instance
                    })
                },
                ErrorView::NoParentNode(way) => {
                    &&& is_noted(instance, path, node, properties, talk, notice)
                    &&& way == parent_path(node_path)
                    &&& name is Some
                    &&& talk[0].1 matches ReplyView::Project(loaded) && node_at(loaded, way) is None
                    &&& after == with_properties
                },
                ErrorView::NotBelowParent(way) => {
                    &&& is_noted(instance, path, node, properties, talk, notice)
                    &&& way == node_path
                    &&& name is Some
                    &&& talk[0].1 matches ReplyView::Project(loaded) && node_at(
                        loaded,
                        parent_path(node_path),
                    ) matches Some(above) && !above.tree.contains_key(own)
                    &&& after == with_properties
                },
                _ => error == refusal(talk.last().1) && after == instance && notice is None,
            }
        },
        KindView::Nowhere => false,
    }
}

/// The node above is there, with the same names below it, before and after properties were written.
proof fn lemma_same_above(
    loaded: NodeView,
    revised: NodeView,
    path: Seq<Seq<char>>,
    own: Seq<char>,
    properties: Option<Map<Seq<char>, Variant>>,
    elsewhere: bool,
)
    requires
        node_is_revised(loaded, revised, path, own, properties, elsewhere),
    ensures
        match (node_at(loaded, parent_path(path)), node_at(revised, parent_path(path))) {
            (Some(before), Some(after)) => before.tree.dom() == after.tree.dom(),
            (None, None) => true,
            _ => false,
        },
{
    if path.len() > 0 {
        assert(!path.is_prefix_of(path.drop_last()));
        assert(said_at(revised, path.drop_last()) == said_at(loaded, path.drop_last()));
    }
}

/// An update that fails has the reason that came last, and has changed what was done before.
#[verifier::rlimit(40)]
proof fn lemma_update_fails(
    instance: InstanceView,
    name: Option<Seq<char>>,
    properties: Option<Map<Seq<char>, Variant>>,
    talk: Talk,
    answers: Seq<ReplyView>,
)
    requires
        is_update_talk(instance, name, properties, talk, answers),
        !(instance.meta.source.inner is Nowhere),
        updating(instance, name, properties, answers) is Done,
        updating(instance, name, properties, answers)->Done_0.result is Err,
    ensures
        ({
            let end = updating(instance, name, properties, answers)->Done_0;
            update_fails(
                instance,
                name,
                properties,
                talk,
                end.result->Err_0,
                end.change.applied(instance),
                end.notice,
            )
        }),
{
    let n = answers.len() as int;
    let end = updating(instance, name, properties, answers)->Done_0;
    assert(answers.take(0).len() == 0);
    assert(answers.take(0) =~= Seq::empty());
    if n > 0 {
        assert(talk[n - 1].1 == answers[n - 1]);
        assert(answers.take(n - 1) =~= answers.drop_last());
    } else {
        assert(answers =~= Seq::empty());
    }
    match instance.meta.source.inner {
        KindView::Path(path) => {
            let entries = instance.meta.source.relevants;
            let count = count_moved(instance, name);
            let meta = meta_after_rename(instance, path, name);
            let called = name_after(instance, name);
            let mut moved = true;
            match name {
                Some(new) => {
                    let requests = moves(entries, instance.name, new);
                    lemma_moves(entries, instance.name, new);
                    lemma_carried_out(requests, answers, 0);
                    assert(renamed_meta(
                        instance.meta,
                        path,
                        instance.name,
                        new,
                    ).source.relevants =~= meta.source.relevants);
                    match carrying_out(requests, answers, 0) {
                        FlowView::Done(_) => {
                            if n > count {
                                let part = answers.drop_last();
                                lemma_carried_out(requests, part, 0);
                                assert forall|j: int|
                                    0 <= j < requests.len() && 0 + j < part.len() implies (
                                #[trigger] part[0 + j]) is Done by {
                                    assert(answers[0 + j] is Done);
                                }
                            }
                        },
                        FlowView::Fail(error) => {
                            moved = false;
                            let part = answers.drop_last();
                            lemma_carried_out(requests, part, 0);
                            let j = choose|j: int|
                                #![trigger answers[0 + j]]
                                0 <= j < requests.len() && 0 + j < answers.len() && !(answers[0
                                    + j] is Done) && error == refusal(answers[0 + j]);
                            if j < n - 1 {
                                assert(part[0 + j] == answers[0 + j]);
                                assert(carrying_out(requests, part, 0) is Ask
                                    || carrying_out(requests, part, 0) is Done);
                                lemma_refused_before(requests, part, 0, j);
                            }
                        },
                        FlowView::Ask(_) => {},
                    }
                },
                None => {},
            }
            if moved && properties is Some {
                if n > count {
                    lemma_revision_fails(
                        path,
                        called,
                        instance.class,
                        validated(properties->0),
                        meta,
                        answers,
                        count,
                    );
                }
            }
        },
        KindView::Project(own, path, node, node_path) => {
            if n > 0 {
                assert(talk[0].1 == answers[0]);
            }
            if n > 1 {
                assert(answers.drop_last()[0] == answers[0]);
                assert(answers.take(1)[0] == answers[0]);
                assert(answers.take(1).len() == 1);
                assert(talk[1].1 == answers[1]);
            }
            if n > 2 {
                assert(answers.take(2)[0] == answers[0]);
                assert(answers.take(2)[1] == answers[1]);
                assert(talk[2].1 == answers[2]);
            }
            if n > 0 && answers[0] is Project {
                let loaded = answers[0]->Project_0;
                if properties is Some && node.path is Some {
                    let place = custom_place(path, node.path->0);
                    let meant = validated(properties->0);
                    let between = with_node_at(
                        loaded,
                        node_path,
                        cleared(node_at(loaded, node_path)->0),
                    );
                    if node_at(loaded, node_path) is Some {
                        lemma_saved(loaded, between, own, node_path, name, properties, true);
                        lemma_same_above(loaded, between, node_path, own, properties, true);
                    }
                    match revising(
                        place,
                        instance.name,
                        instance.class,
                        meant,
                        instance.meta,
                        answers,
                        1,
                    ) {
                        FlowView::Done(revised) => {
                            assert(answers.take(n) =~= answers);
                            lemma_elsewhere_written(
                                instance,
                                own,
                                path,
                                node,
                                node_path,
                                name,
                                properties->0,
                                talk,
                                answers,
                            );
                            assert(talk.take(n) =~= talk);
                            assert(talk.take(n - 1) =~= talk.drop_last());
                            lemma_revised_after(
                                place,
                                instance.name,
                                instance.class,
                                meant,
                                instance.meta,
                                answers,
                                1,
                                n,
                            );
                            if revised.used < n {
                                lemma_revised_before(
                                    place,
                                    instance.name,
                                    instance.class,
                                    meant,
                                    instance.meta,
                                    answers,
                                    1,
                                    n - 1,
                                );
                                if revised.used < n - 1 {
                                    assert(answers.drop_last()[revised.used]
                                        == answers[revised.used]);
                                }
                            } else {
                                lemma_not_saved(
                                    place,
                                    instance.name,
                                    instance.class,
                                    meant,
                                    instance.meta,
                                    answers,
                                );
                            }
                        },
                        FlowView::Fail(_) => {
                            if n > 1 {
                                lemma_not_saved(
                                    place,
                                    instance.name,
                                    instance.class,
                                    meant,
                                    instance.meta,
                                    answers,
                                );
                                lemma_revision_fails(
                                    place,
                                    instance.name,
                                    instance.class,
                                    meant,
                                    instance.meta,
                                    answers,
                                    1,
                                );
                            }
                        },
                        FlowView::Ask(_) => {},
                    }
                } else {
                    let between = match properties {
                        Some(given) => with_node_at(
                            loaded,
                            node_path,
                            rewritten(node_at(loaded, node_path)->0, own, validated(given)),
                        ),
                        None => loaded,
                    };
                    if properties is None || node_at(loaded, node_path) is Some {
                        lemma_saved(
                            loaded,
                            between,
                            own,
                            node_path,
                            name,
                            properties,
                            node.path is Some,
                        );
                        lemma_same_above(
                            loaded,
                            between,
                            node_path,
                            own,
                            properties,
                            node.path is Some,
                        );
                    }
                }
            }
        },
        KindView::Nowhere => {},
    }
}

/// Requests that were refused are not carried out.
proof fn lemma_refused_before(requests: Seq<RequestView>, answers: Seq<ReplyView>, at: int, j: int)
    requires
        0 <= at,
        0 <= j < requests.len(),
        at + j < answers.len(),
        !(answers[at + j] is Done),
    ensures
        carrying_out(requests, answers, at) is Fail,
    decreases requests.len(),
{
    if j > 0 && answers[at] is Done {
        lemma_refused_before(requests.skip(1), answers, at + 1, j - 1);
    }
}

/// Writing properties that did not end with fewer answers was asking for something else than a
/// project to be saved.
proof fn lemma_not_saved(
    path: Seq<char>,
    name: Seq<char>,
    class: Seq<char>,
    properties: Map<Seq<char>, Variant>,
    meta: MetaView,
    answers: Seq<ReplyView>,
)
    requires
        answers.len() > 1,
        revising(path, name, class, properties, meta, answers, 1) is Fail || revising(
            path,
            name,
            class,
            properties,
            meta,
            answers,
            1,
        )->Done_0.used == answers.len(),
        !(revising(path, name, class, properties, meta, answers, 1) is Ask),
    ensures
        !(revising(path, name, class, properties, meta, answers.drop_last(), 1) is Done),
        revising(path, name, class, properties, meta, answers.drop_last(), 1) matches FlowView::Ask(
            request,
        ) ==> !(request is Save),
{
}

/// When an update fails, the instance keeps what was changed before and nothing else: a new name
/// once all files are moved, new properties once they are written, and all once the project was
/// asked to be saved.
pub proof fn failed_update_keeps_what_was_done(
    id: Ref,
    name: Option<Seq<char>>,
    properties: Option<Map<Seq<char>, Variant>>,
    tree: TreeView,
    replies: Seq<ReplyView>,
)
    requires
        tree.contains_key(id),
        !(tree[id].meta.source.inner is Nowhere),
    ensures
        ({
            let started = update_started(id, name, properties, tree);
            update_run(started, replies) matches StepView::Stop(Err(error), after, notice)
                ==> update_fails(
                tree[id],
                name,
                properties,
                update_talk(started, replies),
                error,
                after[id],
                notice,
            )
        }),
{
    let started = update_started(id, name, properties, tree);
    let talk = update_talk(started, replies);
    let n = talk.len() as int;
    lemma_heard(id, name, properties, tree, replies);
    assert(update_talk_is_heard(tree[id], name, properties, replies, talk, n));
    match update_run(started, replies) {
        StepView::Stop(Err(_), _, _) => {
            lemma_never_fails(tree[id], name, properties, replies.take(n));
            lemma_update_fails(tree[id], name, properties, talk, replies.take(n));
        },
        _ => {},
    }
}

/// An update always ends with what it changed.
proof fn lemma_never_fails(
    instance: InstanceView,
    name: Option<Seq<char>>,
    properties: Option<Map<Seq<char>, Variant>>,
    answers: Seq<ReplyView>,
)
    ensures
        !(updating(instance, name, properties, answers) is Fail),
{
}

} // verus!
