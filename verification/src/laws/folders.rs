//! Laws of files that become folders and of folders that become files.
use crate::exchange::{FlowView, ReplyView, RequestView, StepView};
use crate::laws::addition::{addition_run, addition_tree, lemma_placing};
use crate::laws::removal::{
    lemma_disposing, lemma_leaving, lemma_run, removal_run, removal_tree,
};
use crate::meta::{
    first_data, first_file, rule_numbers, EntryView, KindView, MetaView, SourceView,
};
use crate::properties::validated;
use crate::snapshot::SnapshotView;
use crate::tree::{
    detached, inserted, is_below, is_way, removed, without, InstanceView, TreeView,
};
use crate::write::addition::{added_to, addition_started, jobs_below, AdditionView, StageView};
use crate::write::files::{first_match, first_place, housing, placing, JobView, PlacedView};
use crate::write::removal::{
    disposing, ended, leaving, parent_of, removal_started, removal_step, removing, resourced,
    FinishView, RemovalView,
};
use rbx_dom_weak::types::Ref;
use vstd::prelude::*;

verus! {

/// A source that is a single file, with a data file if there is one.
pub open spec fn single_file(path: Seq<char>, data: Option<Seq<char>>) -> SourceView {
    match data {
        Some(data) => SourceView::file(path).add(EntryView::Data(data)),
        None => SourceView::file(path),
    }
}

/// A source that is a folder with the instance's file in it, and its data file if there is one.
pub open spec fn file_in_folder(
    folder: Seq<char>,
    file: Seq<char>,
    data: Option<Seq<char>>,
) -> SourceView {
    match data {
        Some(data) => SourceView::child_file(folder, file).add(EntryView::Data(data)),
        None => SourceView::child_file(folder, file),
    }
}

proof fn lemma_entries(path: Seq<char>, folder: Seq<char>, data: Option<Seq<char>>)
    ensures
        first_file(single_file(path, data).relevants) == Some(path),
        first_data(single_file(path, data).relevants) == data,
        first_file(file_in_folder(folder, path, data).relevants) == Some(path),
        first_data(file_in_folder(folder, path, data).relevants) == data,
{
    reveal_with_fuel(first_file, 4);
    reveal_with_fuel(first_data, 4);
    let a = single_file(path, data).relevants;
    let b = file_in_folder(folder, path, data).relevants;
    assert(a[0] == EntryView::File(path));
    assert(b[0] == EntryView::Folder(folder));
    assert(b.skip(1)[0] == EntryView::File(path));
    if data is Some {
        assert(a.skip(1)[0] == EntryView::Data(data->0));
        assert(b.skip(1).skip(1)[0] == EntryView::Data(data->0));
    }
}

/// An instance that is a single file becomes a folder with the file in it when it gets its first
/// child, and has its data file if and only if it had one before.
pub proof fn file_becomes_folder(
    path: Seq<char>,
    data: Option<Seq<char>>,
    meta: MetaView,
    answers: Seq<ReplyView>,
)
    requires
        meta.source == single_file(path, data),
        answers.len() > 0,
        answers[0] == ReplyView::Flag(true),
    ensures
        housing(path, meta, answers) matches FlowView::Done(house) ==> exists|
            file: Seq<char>,
            moved: Option<Seq<char>>,
        |
            house.source == #[trigger] file_in_folder(house.path, file, moved) && (moved is Some
                <==> data is Some),
{
    lemma_entries(path, path, data);
    match housing(path, meta, answers) {
        FlowView::Done(house) => {
            let file = answers[3]->Place_0->0;
            match data {
                Some(_) => {
                    let to = first_place(answers[4]->Places_0)->0;
                    assert(house.source == file_in_folder(house.path, file, Some(to)));
                },
                None => {
                    assert(house.source == file_in_folder(house.path, file, None));
                },
            }
        },
        _ => {},
    }
}

/// An instance that has a file, or that was found to be one, has its file, and its data file if it
/// had one, after it was made ready for its first child.
proof fn lemma_housed(
    path: Seq<char>,
    data: Option<Seq<char>>,
    meta: MetaView,
    answers: Seq<ReplyView>,
)
    requires
        meta.source.inner is Path,
        first_file(meta.source.relevants) is Some || answers[0] == ReplyView::Flag(true),
        first_data(meta.source.relevants) == data,
    ensures
        housing(path, meta, answers) matches FlowView::Done(house) ==> {
            &&& house.source.inner is Path
            &&& first_file(house.source.relevants) is Some
            &&& first_data(house.source.relevants) is Some <==> data is Some
        },
{
    match housing(path, meta, answers) {
        FlowView::Done(house) => {
            if answers[0] == ReplyView::Flag(true) {
                let file = answers[3]->Place_0->0;
                match data {
                    Some(_) => {
                        let to = first_place(answers[4]->Places_0)->0;
                        assert(house.source == file_in_folder(house.path, file, Some(to)));
                        lemma_entries(file, house.path, Some(to));
                    },
                    None => {
                        assert(house.source == file_in_folder(house.path, file, None));
                        lemma_entries(file, house.path, None);
                    },
                }
            }
        },
        _ => {},
    }
}

/// An instance that was a single file before it was made ready for its first child becomes that
/// file again when it loses its last one, provided that the rules give the old places again.
pub proof fn folder_becomes_file_again(
    path: Seq<char>,
    data: Option<Seq<char>>,
    meta: MetaView,
    answers: Seq<ReplyView>,
    parent: InstanceView,
    back: Seq<ReplyView>,
    at: int,
)
    requires
        meta.source == single_file(path, data),
        parent.children.len() == 1,
        housing(path, meta, answers) matches FlowView::Done(house) && parent.meta
            == (MetaView { source: house.source, ..meta }),
        leaving(Some(parent), back, at) matches FlowView::Done(folded) && folded.source is Some,
        back[at + 1] == ReplyView::Place(Some(path)),
        data is Some ==> (back[at + 3] matches ReplyView::Places(places) && first_place(places)
            == data),
    ensures
        leaving(Some(parent), back, at) matches FlowView::Done(folded) && folded.source == Some(
            meta.source,
        ),
{
    lemma_entries(path, path, data);
    lemma_housed(path, data, meta, answers);
}

/// The removal after the first `k` replies.
spec fn told(removal: RemovalView, replies: Seq<ReplyView>, k: int) -> RemovalView {
    RemovalView { answers: removal.answers + replies.take(k), ..removal }
}

/// A run of a removal uses the first `used` replies, one after the other, and no others.
proof fn lemma_used(removal: RemovalView, replies: Seq<ReplyView>) -> (used: int)
    ensures
        0 <= used <= replies.len(),
        removal_run(removal_step(removal), replies) == removal_step(told(removal, replies, used)),
        forall|k: int|
            0 <= k <= used ==> removal_run(removal_step(removal), replies.take(k)) == removal_step(
                #[trigger] told(removal, replies, k),
            ),
    decreases replies.len(),
{
    assert(removal.answers + replies.take(0) =~= removal.answers);
    assert(told(removal, replies, 0) == removal);
    match removal_step(removal) {
        StepView::Ask(_, _) if replies.len() > 0 => {
            let next = RemovalView { answers: removal.answers.push(replies[0]), ..removal };
            let rest = replies.skip(1);
            let more = lemma_used(next, rest);
            assert forall|k: int| 1 <= k <= more + 1 implies told(removal, replies, k) == told(
                next,
                rest,
                k - 1,
            ) by {
                assert(removal.answers + replies.take(k) =~= next.answers + rest.take(k - 1));
            }
            assert forall|k: int| 0 <= k <= more + 1 implies removal_run(
                removal_step(removal),
                replies.take(k),
            ) == removal_step(#[trigger] told(removal, replies, k)) by {
                if k > 0 {
                    assert(replies.take(k).skip(1) =~= rest.take(k - 1));
                    assert(told(removal, replies, k) == told(next, rest, k - 1));
                }
            }
            more + 1
        },
        _ => 0,
    }
}

/// What was removed stays removed when fewer answers are there, as long as all that were used are.
pub(crate) proof fn lemma_disposed_before(
    entries: Seq<EntryView>,
    answers: Seq<ReplyView>,
    at: int,
    k: int,
)
    requires
        0 <= at,
        disposing(entries, answers, at) matches FlowView::Done(used) && used <= k <= answers.len(),
    ensures
        disposing(entries, answers.take(k), at) == disposing(entries, answers, at),
        at <= disposing(entries, answers, at)->Done_0,
    decreases entries.len(),
{
    if entries.len() > 0 {
        let rest = entries.skip(1);
        match entries[0] {
            EntryView::Project(_) => {
                lemma_disposed_before(rest, answers, at, k);
            },
            EntryView::Folder(_) => {
                lemma_disposed_before(rest, answers, at + 1, k);
            },
            EntryView::File(_) | EntryView::Data(_) => {
                if answers[at]->Flag_0 {
                    lemma_disposed_before(rest, answers, at + 2, k);
                } else {
                    lemma_disposed_before(rest, answers, at + 1, k);
                }
            },
        }
    }
}

/// The reply gives an old place: where a removal asks which rule an instance's file follows, some
/// rule matches; where it asks for the place of the file or of the data file, it is the old one.
pub open spec fn is_old_place(
    step: StepView<RemovalView>,
    reply: ReplyView,
    path: Seq<char>,
    data: Option<Seq<char>>,
) -> bool {
    match (step, reply) {
        (
            StepView::Ask(RequestView::MatchesChild { rules, path: _ }, _),
            ReplyView::Flags(flags),
        ) => first_match(rules, flags) is Some,
        (StepView::Ask(RequestView::Locate { .. }, _), ReplyView::Place(place)) => place == Some(
            path,
        ),
        (StepView::Ask(RequestView::LocateEach { .. }, _), ReplyView::Places(places)) =>
            first_place(places) == data,
        _ => true,
    }
}

/// In a run of a removal the replies give the old places.
pub open spec fn gives_old_places(
    id: Ref,
    tree: TreeView,
    replies: Seq<ReplyView>,
    path: Seq<char>,
    data: Option<Seq<char>>,
) -> bool {
    forall|k: int|
        0 <= k < replies.len() ==> is_old_place(
            removal_run(removal_started(id, tree), #[trigger] replies.take(k)),
            replies[k],
            path,
            data,
        )
}

/// The tree after the only job of an addition was done.
spec fn grown_by(tree: TreeView, parent: Ref, job: JobView, done: PlacedView) -> TreeView {
    let grown = inserted(tree, SnapshotView { meta: done.meta, ..job.snapshot }, parent);
    grown.insert(
        parent,
        InstanceView { meta: added_to(job.meta, done.source), ..grown[parent] },
    )
}

/// A successful addition of one instance without children has done its only job.
proof fn lemma_only_job(
    request: RequestView,
    addition: AdditionView,
    job: JobView,
    replies: Seq<ReplyView>,
) -> (told: Seq<ReplyView>)
    requires
        addition.stage matches StageView::Files { source, jobs, answers } && source is None && jobs
            == seq![job],
        job.snapshot.children.len() == 0,
        job.parent == addition.parent,
        job.meta == addition.meta,
    ensures
        addition_run(
            StepView::Ask(request, addition),
            replies,
        ) matches StepView::Stop(Ok(_), after, _) ==> (placing(job, told) matches FlowView::Done(
            done,
        ) && after == grown_by(addition.tree, addition.parent, job, done) && replies.len() > 0
            && addition.stage->answers.push(replies[0]).is_prefix_of(told)),
    decreases replies.len(),
{
    reveal_with_fuel(addition_run, 2);
    if replies.len() > 0 {
        match addition.stage {
            StageView::Files { source, jobs, answers } => {
                let told = answers.push(replies[0]);
                assert(jobs.last() == job);
                match placing(job, told) {
                    FlowView::Ask(next) => {
                        let more = AdditionView {
                            stage: StageView::Files { source, jobs, answers: told },
                            ..addition
                        };
                        lemma_only_job(next, more, job, replies.skip(1))
                    },
                    FlowView::Done(done) => {
                        assert((jobs.drop_last() + jobs_below(job.snapshot, done)).len() == 0);
                        told
                    },
                    FlowView::Fail(_) => told,
                }
            },
            _ => Seq::empty(),
        }
    } else {
        Seq::empty()
    }
}

/// A removal that has disposed of its instance's files asks what becomes of the instance above.
proof fn lemma_step_at(removal: RemovalView, parent: InstanceView, at: int, k: int)
    requires
        parent_of(removal.tree, removal.id) == Some(parent),
        removal.tree[removal.id].meta.source.inner is Path,
        disposing(removal.tree[removal.id].meta.source.relevants, removal.answers, 0)
            == FlowView::Done(at),
        at <= k <= removal.answers.len(),
    ensures
        0 <= at,
        leaving(Some(parent), removal.answers.take(k), at) matches FlowView::Ask(request) ==> (
        removal_step(
            RemovalView { answers: removal.answers.take(k), ..removal },
        ) matches StepView::Ask(asked, _) && asked == request),
{
    let entries = removal.tree[removal.id].meta.source.relevants;
    lemma_disposed_before(entries, removal.answers, 0, k);
}

/// What is asked when an instance loses its last child, in order.
proof fn lemma_leaving_asks(parent: InstanceView, answers: Seq<ReplyView>, at: int)
    requires
        parent.children.len() == 1,
        parent.meta.source.inner is Path,
        first_file(parent.meta.source.relevants) is Some,
        0 <= at <= answers.len(),
        leaving(Some(parent), answers, at) is Done,
    ensures
        ({
            let rules = rule_numbers(parent.meta.context);
            &&& at < answers.len()
            &&& answers[at] is Flags
            &&& leaving(Some(parent), answers.take(at), at) matches FlowView::Ask(
                RequestView::MatchesChild { rules: asked, path: _ },
            ) && asked == rules
            &&& first_match(rules, answers[at]->Flags_0) is Some ==> {
                &&& at + 1 < answers.len()
                &&& answers[at + 1] is Place
                &&& leaving(Some(parent), answers.take(at + 1), at) matches FlowView::Ask(
                    RequestView::Locate { .. },
                )
                &&& answers[at + 1]->Place_0 is Some && first_data(parent.meta.source.relevants)
                    is Some ==> {
                    &&& at + 3 < answers.len()
                    &&& answers[at + 3] is Places
                    &&& leaving(Some(parent), answers.take(at + 3), at) matches FlowView::Ask(
                        RequestView::LocateEach { .. },
                    )
                }
            }
        }),
{
}

/// What an instance that loses its last child becomes when the old places are given.
proof fn lemma_left_old(
    parent: InstanceView,
    answers: Seq<ReplyView>,
    at: int,
    path: Seq<char>,
    data: Option<Seq<char>>,
)
    requires
        parent.children.len() == 1,
        parent.meta.source.inner is Path,
        first_file(parent.meta.source.relevants) is Some,
        first_data(parent.meta.source.relevants) is Some <==> data is Some,
        leaving(Some(parent), answers, at) is Done,
        first_match(rule_numbers(parent.meta.context), answers[at]->Flags_0) is Some,
        answers[at + 1] == ReplyView::Place(Some(path)),
        data is Some ==> (answers[at + 3] matches ReplyView::Places(places) && first_place(places)
            == data),
    ensures
        leaving(Some(parent), answers, at)->Done_0.source == Some(single_file(path, data)),
{
}

/// What a removal of the only child comes to when the old places are given.
proof fn lemma_folded(
    id: Ref,
    tree: TreeView,
    parent: InstanceView,
    replies: Seq<ReplyView>,
    path: Seq<char>,
    data: Option<Seq<char>>,
) -> (finish: FinishView)
    requires
        tree.contains_key(id),
        parent_of(tree, id) == Some(parent),
        tree[id].meta.source.inner is Path,
        parent.children.len() == 1,
        parent.meta.source.inner is Path,
        first_file(parent.meta.source.relevants) is Some,
        first_data(parent.meta.source.relevants) is Some <==> data is Some,
        removal_run(removal_started(id, tree), replies) matches StepView::Stop(Ok(_), _, _),
        gives_old_places(id, tree, replies, path, data),
    ensures
        finish.result is Ok,
        finish.source == Some(single_file(path, data)),
        removal_tree(removal_run(removal_started(id, tree), replies)) == ended(tree, id, finish),
{
    let start = RemovalView { tree, id, answers: Seq::empty() };
    let used = lemma_used(start, replies);
    let last = told(start, replies, used);
    let answers = last.answers;
    assert(answers =~= replies.take(used));
    let at = disposing(tree[id].meta.source.relevants, answers, 0)->Done_0;
    let finish = removing(id, tree[id].meta, Some(parent), answers)->Done_0;
    lemma_disposing(tree[id].meta.source.relevants, answers, 0);
    lemma_leaving(tree[id].meta, Some(parent), answers, at);
    assert forall|k: int| at <= k < used implies (leaving(
        Some(parent),
        #[trigger] answers.take(k),
        at,
    ) matches FlowView::Ask(request) ==> (removal_run(
        removal_started(id, tree),
        replies.take(k),
    ) matches StepView::Ask(asked, _) && asked == request && is_old_place(
        removal_run(removal_started(id, tree), replies.take(k)),
        answers[k],
        path,
        data,
    ))) by {
        assert(told(start, replies, k).answers =~= answers.take(k));
        assert(told(start, replies, k) == RemovalView { answers: answers.take(k), ..last });
        lemma_step_at(last, parent, at, k);
    }
    if at <= answers.len() {
        lemma_leaving_asks(parent, answers, at);
        lemma_left_old(parent, answers, at, path, data);
    }
    finish
}

/// The tree after an only child came and went: the child is gone and its parent is a single file.
spec fn plain_again(
    tree: TreeView,
    id: Ref,
    parent: Ref,
    path: Seq<char>,
    data: Option<Seq<char>>,
) -> TreeView {
    tree.remove(id).insert(parent, made_single(tree[parent], path, data))
}

/// The instance as a single file, with a data file if there is one.
pub open spec fn made_single(
    instance: InstanceView,
    path: Seq<char>,
    data: Option<Seq<char>>,
) -> InstanceView {
    InstanceView {
        meta: MetaView { source: single_file(path, data), ..instance.meta },
        ..instance
    }
}

/// What a first child that comes and goes leaves behind.
proof fn lemma_only_child(
    snapshot: SnapshotView,
    parent: Ref,
    tree: TreeView,
    path: Seq<char>,
    data: Option<Seq<char>>,
    replies: Seq<ReplyView>,
    back: Seq<ReplyView>,
)
    requires
        tree.contains_key(parent),
        tree[parent].meta.source.inner == KindView::Path(path),
        first_file(tree[parent].meta.source.relevants) is Some || replies[0] == ReplyView::Flag(
            true,
        ),
        first_data(tree[parent].meta.source.relevants) == data,
        tree[parent].children.len() == 0,
        snapshot.id != parent,
        snapshot.children.len() == 0,
        addition_run(
            addition_started(snapshot, parent, tree),
            replies,
        ) matches StepView::Stop(Ok(_), grown, _) && removal_run(
            removal_started(snapshot.id, grown),
            back,
        ) matches StepView::Stop(Ok(_), _, _) && gives_old_places(
            snapshot.id,
            grown,
            back,
            path,
            data,
        ),
    ensures
        ({
            let grown = addition_tree(
                addition_run(addition_started(snapshot, parent, tree), replies),
            );
            removal_tree(removal_run(removal_started(snapshot.id, grown), back)) == plain_again(
                tree,
                snapshot.id,
                parent,
                path,
                data,
            )
        }),
{
    let id = snapshot.id;
    let meta = tree[parent].meta;
    let given = SnapshotView { properties: validated(snapshot.properties), ..snapshot };
    let job = JobView { parent, path, meta, snapshot: given };
    let grown = addition_tree(addition_run(addition_started(snapshot, parent, tree), replies));
    let answers = match addition_started(snapshot, parent, tree) {
        StepView::Ask(request, addition) => {
            let told = lemma_only_job(request, addition, job, replies);
            assert(addition.stage->answers.push(replies[0])[0] == replies[0]);
            told
        },
        _ => Seq::empty(),
    };
    assert(answers[0] == replies[0]);
    let done = placing(job, answers)->Done_0;
    lemma_placing(job, answers);
    lemma_housed(path, data, meta, answers);
    assert(grown == grown_by(tree, parent, job, done));
    assert(grown[parent].children =~= seq![id]);
    let finish = lemma_folded(id, grown, grown[parent], back, path, data);
    let moved = resourced(grown, id, finish.source);
    lemma_leaf_removed(moved, id, parent);
    assert(tree[parent].children =~= Seq::empty());
    assert(removed(moved, id) =~= plain_again(tree, id, parent, path, data));
}

/// An only child without children is all that goes when it is removed.
proof fn lemma_leaf_removed(tree: TreeView, id: Ref, parent: Ref)
    requires
        tree.contains_key(id),
        tree.contains_key(parent),
        id != parent,
        tree[id].parent == Some(parent),
        tree[id].children.len() == 0,
        tree[parent].children == seq![id],
    ensures
        removed(tree, id) == tree.remove(id).insert(
            parent,
            InstanceView { children: Seq::empty(), ..tree[parent] },
        ),
{
    let rest = detached(tree, id);
    reveal_with_fuel(without, 2);
    assert(without(seq![id], id) =~= Seq::empty());
    assert forall|other: Ref| is_below(rest, id, other) == (other == id) by {
        if is_below(rest, id, other) && other != id {
            let way = choose|way: Seq<Ref>| #[trigger]
                is_way(rest, way) && way[0] == id && way.last() == other;
            assert(rest[way[0]].children.contains(way[1]));
        }
        assert(is_way(rest, seq![id]));
        assert(seq![id][0] == id && seq![id].last() == id);
    }
    assert(removed(tree, id) =~= tree.remove(id).insert(
        parent,
        InstanceView { children: Seq::empty(), ..tree[parent] },
    ));
}

/// Where an instance that is a folder, has no file of its own and no children gets a first child,
/// which has none either and another identity, and loses it again, the instance is what it was,
/// whatever the rules say. The child is gone, and nothing else has changed.
pub proof fn only_child_of_a_folder_leaves_no_trace(
    snapshot: SnapshotView,
    parent: Ref,
    tree: TreeView,
    path: Seq<char>,
    replies: Seq<ReplyView>,
    back: Seq<ReplyView>,
)
    requires
        tree.contains_key(parent),
        tree[parent].meta.source.inner == KindView::Path(path),
        first_file(tree[parent].meta.source.relevants) is None,
        replies[0] == ReplyView::Flag(false),
        tree[parent].children.len() == 0,
        snapshot.id != parent,
        snapshot.children.len() == 0,
        addition_run(
            addition_started(snapshot, parent, tree),
            replies,
        ) matches StepView::Stop(Ok(_), grown, _) && removal_run(
            removal_started(snapshot.id, grown),
            back,
        ) matches StepView::Stop(Ok(_), _, _),
    ensures
        ({
            let grown = addition_tree(
                addition_run(addition_started(snapshot, parent, tree), replies),
            );
            let after = removal_tree(removal_run(removal_started(snapshot.id, grown), back));
            &&& after == tree.remove(snapshot.id)
            &&& after[parent] == tree[parent]
        }),
{
    let id = snapshot.id;
    let given = SnapshotView { properties: validated(snapshot.properties), ..snapshot };
    let job = JobView { parent, path, meta: tree[parent].meta, snapshot: given };
    let grown = addition_tree(addition_run(addition_started(snapshot, parent, tree), replies));
    let answers = match addition_started(snapshot, parent, tree) {
        StepView::Ask(request, addition) => {
            let told = lemma_only_job(request, addition, job, replies);
            assert(addition.stage->answers.push(replies[0])[0] == replies[0]);
            told
        },
        _ => Seq::empty(),
    };
    assert(answers[0] == replies[0]);
    let done = placing(job, answers)->Done_0;
    lemma_placing(job, answers);
    assert(done.source == tree[parent].meta.source);
    assert(grown == grown_by(tree, parent, job, done));
    assert(grown[parent].children =~= seq![id]);
    let used = lemma_run(RemovalView { tree: grown, id, answers: Seq::empty() }, back);
    let finish = removing(id, grown[id].meta, Some(grown[parent]), used.answers)->Done_0;
    assert(finish.source is None);
    lemma_leaf_removed(grown, id, parent);
    assert(tree[parent].children =~= Seq::empty());
    assert(removed(grown, id) =~= tree.remove(id));
}

/// Where an instance at a path, which is a file or among whose files there is one, has no children
/// and gets a first child, which has none either and another identity, and loses it again, the
/// instance is a single file at that path, with its data file if it had one, whatever else belonged
/// to it before, provided that the rules give the old places again. The child is gone, and nothing
/// else has changed.
pub proof fn only_child_leaves_a_single_file(
    snapshot: SnapshotView,
    parent: Ref,
    tree: TreeView,
    path: Seq<char>,
    replies: Seq<ReplyView>,
    back: Seq<ReplyView>,
)
    requires
        tree.contains_key(parent),
        tree[parent].meta.source.inner == KindView::Path(path),
        tree[parent].children.len() == 0,
        snapshot.id != parent,
        snapshot.children.len() == 0,
        first_file(tree[parent].meta.source.relevants) is Some || replies[0] == ReplyView::Flag(
            true,
        ),
        addition_run(
            addition_started(snapshot, parent, tree),
            replies,
        ) matches StepView::Stop(Ok(_), grown, _) && removal_run(
            removal_started(snapshot.id, grown),
            back,
        ) matches StepView::Stop(Ok(_), _, _) && gives_old_places(
            snapshot.id,
            grown,
            back,
            path,
            first_data(tree[parent].meta.source.relevants),
        ),
    ensures
        ({
            let grown = addition_tree(
                addition_run(addition_started(snapshot, parent, tree), replies),
            );
            let after = removal_tree(removal_run(removal_started(snapshot.id, grown), back));
            after == tree.remove(snapshot.id).insert(
                parent,
                made_single(
                    tree[parent],
                    path,
                    first_data(tree[parent].meta.source.relevants),
                ),
            )
        }),
{
    let data = first_data(tree[parent].meta.source.relevants);
    lemma_only_child(snapshot, parent, tree, path, data, replies, back);
}

/// Where an instance that is a single file and has no children gets a first child, which has none
/// either and another identity, and loses it again, the instance is what it was: it has the source
/// that it had and no children, provided that the rules give the old places again. Where the
/// child's identity was new, the whole tree is what it was.
pub proof fn only_child_leaves_no_trace(
    snapshot: SnapshotView,
    parent: Ref,
    tree: TreeView,
    path: Seq<char>,
    data: Option<Seq<char>>,
    replies: Seq<ReplyView>,
    back: Seq<ReplyView>,
)
    requires
        tree.contains_key(parent),
        tree[parent].meta.source == single_file(path, data),
        tree[parent].children.len() == 0,
        snapshot.id != parent,
        snapshot.children.len() == 0,
        addition_run(
            addition_started(snapshot, parent, tree),
            replies,
        ) matches StepView::Stop(Ok(_), grown, _) && removal_run(
            removal_started(snapshot.id, grown),
            back,
        ) matches StepView::Stop(Ok(_), _, _) && gives_old_places(
            snapshot.id,
            grown,
            back,
            path,
            data,
        ),
    ensures
        ({
            let grown = addition_tree(
                addition_run(addition_started(snapshot, parent, tree), replies),
            );
            let after = removal_tree(removal_run(removal_started(snapshot.id, grown), back));
            &&& after == tree.remove(snapshot.id)
            &&& after.contains_key(parent)
            &&& after[parent] == tree[parent]
        }),
{
    lemma_entries(path, path, data);
    lemma_only_child(snapshot, parent, tree, path, data, replies, back);
    assert(plain_again(tree, snapshot.id, parent, path, data) =~= tree.remove(snapshot.id));
}

} // verus!
