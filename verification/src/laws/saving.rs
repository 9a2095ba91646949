//! Laws of saving projects.
use crate::exchange::{FlowView, ReplyView, RequestView, StepView};
use crate::laws::addition::{
    addition_run, addition_tree, ids, lemma_placing, lemma_resumed, lemma_started, under_way,
    waiting,
};
use crate::laws::content::is_flat;
use crate::laws::nodes::lemma_one_answer_more;
use crate::laws::removal::{lemma_disposing, lemma_leaving};
use crate::laws::update::{lemma_carrying_out, lemma_revised};
use crate::meta::{EntryView, KindView};
use crate::path::custom_place;
use crate::properties::validated;
use crate::snapshot::SnapshotView;
use crate::tree::{InstanceView, TreeView};
use crate::write::addition::{addition_resumed, addition_started, AdditionView, StageView};
use crate::write::removal::{
    disposing, leaving, parent_of, removal_resumed, removal_step, RemovalView,
};
use crate::write::update::{
    moves, renamed_meta, revising, update_resumed, update_step, UpdateView,
};
use rbx_dom_weak::types::Ref;
use vstd::prelude::*;

verus! {

/// Once an addition has asked to save a project the next reply ends it.
pub proof fn addition_saves_last(addition: AdditionView, first: ReplyView, second: ReplyView)
    requires
        addition.ready(),
    ensures
        addition_resumed(addition, first) matches StepView::Ask(
            RequestView::Save { .. },
            next,
        ) ==> addition_resumed(next, second) is Stop,
{
    match addition.stage {
        StageView::Files { source, jobs, answers } => {
            lemma_placing(jobs.last(), answers.push(first));
        },
        _ => {},
    }
}

/// Once an update has asked to save a project the next reply ends it.
pub proof fn update_saves_last(update: UpdateView, reply: ReplyView)
    ensures
        update_step(update) matches StepView::Ask(RequestView::Save { .. }, next)
            ==> update_resumed(next, reply) is Stop,
{
    let instance = update.tree[update.id];
    let answers = update.answers;
    let more = answers.push(reply);
    if answers.len() > 0 {
        assert(more[0] == answers[0]);
    }
    match instance.meta.source.inner {
        KindView::Project(_, path, node, _) => {
            match (update.properties, node.path) {
                (Some(given), Some(custom)) => {
                    let place = custom_place(path, custom);
                    let properties = validated(given);
                    lemma_revised(
                        place,
                        instance.name,
                        instance.class,
                        properties,
                        instance.meta,
                        answers,
                        1,
                    );
                    if answers.len() > 0 && revising(
                        place,
                        instance.name,
                        instance.class,
                        properties,
                        instance.meta,
                        answers,
                        1,
                    ) is Done {
                        lemma_one_answer_more(
                            place,
                            instance.name,
                            instance.class,
                            properties,
                            instance.meta,
                            answers,
                            1,
                            reply,
                        );
                    }
                },
                _ => {},
            }
        },
        KindView::Path(path) => {
            let name = update.name;
            let old = instance.name;
            let entries = instance.meta.source.relevants;
            if name is Some {
                lemma_carrying_out(moves(entries, old, name->0), answers, 0);
                lemma_moves_only_rename(entries, old, name->0);
            }
            if update.properties is Some {
                let properties = validated(update.properties->0);
                if name is Some {
                    lemma_revised(
                        path,
                        name->0,
                        instance.class,
                        properties,
                        renamed_meta(instance.meta, path, old, name->0),
                        answers,
                        moves(entries, old, name->0).len() as int,
                    );
                } else {
                    lemma_revised(
                        path,
                        old,
                        instance.class,
                        properties,
                        instance.meta,
                        answers,
                        0,
                    );
                }
            }
        },
        KindView::Nowhere => {},
    }
}

proof fn lemma_moves_only_rename(entries: Seq<EntryView>, from: Seq<char>, to: Seq<char>)
    ensures
        forall|request: RequestView| #[trigger]
            moves(entries, from, to).contains(request) ==> request is Rename,
    decreases entries.len(),
{
    if entries.len() > 0 {
        let rest = moves(entries.drop_last(), from, to);
        let all = moves(entries, from, to);
        lemma_moves_only_rename(entries.drop_last(), from, to);
        assert forall|request: RequestView| #[trigger] all.contains(request) implies request
            is Rename by {
            let k = all.index_of(request);
            if k < rest.len() {
                assert(rest[k] == request);
                assert(rest.contains(request));
            }
        }
    }
}

/// The answers so far lead to the same place when there is one more.
proof fn lemma_disposed(entries: Seq<EntryView>, answers: Seq<ReplyView>, at: int, reply: ReplyView)
    requires
        0 <= at <= answers.len(),
        disposing(entries, answers, at) is Done,
    ensures
        disposing(entries, answers.push(reply), at) == disposing(entries, answers, at),
        disposing(entries, answers, at)->Done_0 <= answers.len(),
    decreases entries.len(),
{
    if entries.len() > 0 {
        let rest = entries.skip(1);
        match entries[0] {
            EntryView::Project(_) => {
                lemma_disposed(rest, answers, at, reply);
            },
            EntryView::Folder(_) => {
                lemma_disposed(rest, answers, at + 1, reply);
            },
            EntryView::File(_) | EntryView::Data(_) => {
                if answers[at]->Flag_0 {
                    lemma_disposed(rest, answers, at + 2, reply);
                } else {
                    lemma_disposed(rest, answers, at + 1, reply);
                }
            },
        }
    }
}

/// The answers so far lead to the same place when there is one more.
proof fn lemma_left(
    parent: Option<InstanceView>,
    answers: Seq<ReplyView>,
    at: int,
    reply: ReplyView,
)
    requires
        0 <= at <= answers.len(),
        leaving(parent, answers, at) is Done,
    ensures
        leaving(parent, answers.push(reply), at) == leaving(parent, answers, at),
        leaving(parent, answers, at)->Done_0.used <= answers.len(),
{
}

/// Once a removal has asked to save a project the next reply ends it.
pub proof fn removal_saves_last(removal: RemovalView, reply: ReplyView)
    ensures
        removal_step(removal) matches StepView::Ask(RequestView::Save { .. }, next)
            ==> removal_resumed(next, reply) is Stop,
{
    let meta = removal.tree[removal.id].meta;
    let parent = parent_of(removal.tree, removal.id);
    let answers = removal.answers;
    let entries = meta.source.relevants;
    let more = answers.push(reply);
    let at = if meta.source.inner is Path {
        0int
    } else {
        1int
    };
    lemma_disposing(entries, answers, at);
    if answers.len() > 0 {
        assert(more[0] == answers[0]);
    }
    match disposing(entries, answers, at) {
        FlowView::Done(used) => {
            lemma_leaving(meta, parent, answers, used);
            if at <= answers.len() {
                lemma_disposed(entries, answers, at, reply);
                if leaving(parent, answers, used) is Done {
                    lemma_left(parent, answers, used, reply);
                }
            }
        },
        _ => {},
    }
}

/// An addition to the nodes of a project adds all instances or none: until the project is known and
/// has the node nothing changes, and then all is added at once.
pub proof fn addition_to_a_project_is_all_or_nothing(
    snapshot: SnapshotView,
    parent: Ref,
    tree: TreeView,
    replies: Seq<ReplyView>,
)
    requires
        tree.contains_key(parent),
        is_flat(tree[parent].meta),
    ensures
        ({
            let after = addition_tree(
                addition_run(addition_started(snapshot, parent, tree), replies),
            );
            after == tree || forall|id: Ref| #[trigger]
                ids(snapshot).count(id) > 0 ==> after.contains_key(id)
        }),
{
    reveal_with_fuel(addition_run, 3);
    lemma_started(snapshot, parent, tree);
    match addition_started(snapshot, parent, tree) {
        StepView::Ask(_, addition) => {
            if replies.len() > 0 {
                let first = replies[0];
                let rest = replies.skip(1);
                lemma_resumed(tree, parent, ids(snapshot), addition, first);
                match addition_resumed(addition, first) {
                    StepView::Ask(_, next) => {
                        let new = ids(snapshot);
                        assert(under_way(tree, parent, new, next));
                        assert(next.stage is Save);
                        assert forall|id: Ref| #[trigger]
                            new.count(id) > 0 implies next.tree.contains_key(id) by {
                            assert(waiting(next.stage).count(id) == 0);
                        }
                    },
                    _ => {},
                }
            }
        },
        _ => {},
    }
}

} // verus!
