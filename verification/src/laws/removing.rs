//! Laws of what a removal asks, from beginning to end.
use crate::exchange::{FlowView, ReplyView, RequestView, StepView};
use crate::laws::basics::{own_words, replacing_a_node_keeps_the_others, same_elsewhere};
use crate::laws::folders::lemma_disposed_before;
use crate::laws::removal::{lemma_disposing, lemma_leaving, removal_run};
use crate::laws::talk::{lemma_removal_talk, removal_after, removal_talk, Talk};
use crate::meta::{
    first_data, first_file, numbers_of_type, rule_numbers, EntryView, KindView, MetaView,
    Middleware, SourceView,
};
use crate::node::{node_at, parent_path, NodeView};
use crate::path::name_of;
use crate::tree::{InstanceView, TreeView};
use crate::write::files::{first_match, first_place};
use crate::write::removal::{
    clearing_away, disposing, leaving, parent_of, removal_started, removal_step, removing,
    FoldedView, RemovalView,
};
use rbx_dom_weak::types::Ref;
use vstd::prelude::*;

verus! {

/// The entries that are no project files, in order.
pub open spec fn own_entries(entries: Seq<EntryView>) -> Seq<EntryView>
    decreases entries.len(),
{
    if entries.len() == 0 {
        Seq::empty()
    } else if entries[0] is Project {
        own_entries(entries.skip(1))
    } else {
        seq![entries[0]] + own_entries(entries.skip(1))
    }
}

/// The exchange saw to a file or folder: it was removed, or was not there.
pub open spec fn is_settled(exchange: (RequestView, ReplyView)) -> bool {
    match exchange {
        (RequestView::Remove(_), ReplyView::Done) => true,
        (RequestView::Exists(_), ReplyView::Flag(false)) => true,
        _ => false,
    }
}

/// How many files and folders were seen to.
pub open spec fn count_settled(talk: Talk) -> nat
    decreases talk.len(),
{
    if talk.len() == 0 {
        0
    } else {
        (if is_settled(talk[0]) {
            1nat
        } else {
            0nat
        }) + count_settled(talk.skip(1))
    }
}

/// So many files and folders were seen to.
pub open spec fn all_settled(count: nat, talk: Talk) -> bool
    decreases talk.len(),
{
    count == 0 || (talk.len() > 0 && all_settled(
        if is_settled(talk[0]) {
            (count - 1) as nat
        } else {
            count
        },
        talk.skip(1),
    ))
}

/// How many exchanges it took to see to so many files and folders.
pub open spec fn settled_after(count: nat, talk: Talk) -> int
    decreases talk.len(),
{
    if count == 0 || talk.len() == 0 {
        0
    } else {
        1 + settled_after(
            if is_settled(talk[0]) {
                (count - 1) as nat
            } else {
                count
            },
            talk.skip(1),
        )
    }
}

/// The request is the next one to see to these files and folders, one after the other: a folder is
/// removed, a file is looked for and removed if it is there.
pub open spec fn disposal_fits(own: Seq<EntryView>, talk: Talk, request: RequestView) -> bool {
    if talk.len() > 0 && talk.last().0 is Exists && talk.last().1 == ReplyView::Flag(true) {
        request == RequestView::Remove(talk.last().0->Exists_0)
    } else {
        count_settled(talk) < own.len() && match own[count_settled(talk) as int] {
            EntryView::Project(_) => false,
            EntryView::Folder(path) => request == RequestView::Remove(path),
            EntryView::File(path) => request == RequestView::Exists(path),
            EntryView::Data(path) => request == RequestView::Exists(path),
        }
    }
}

/// The talk saw to a file or folder.
pub open spec fn entry_is_gone(entry: EntryView, talk: Talk) -> bool {
    ||| talk.contains((RequestView::Remove(entry.path()), ReplyView::Done))
    ||| !(entry is Folder) && talk.contains(
        (RequestView::Exists(entry.path()), ReplyView::Flag(false)),
    )
}

/// The talk is what removing files asks and is told from `at` on.
spec fn is_disposal_talk(
    entries: Seq<EntryView>,
    answers: Seq<ReplyView>,
    at: int,
    talk: Talk,
) -> bool {
    &&& 0 <= at
    &&& answers.len() == at + talk.len()
    &&& forall|j: int|
        0 <= j < talk.len() ==> (#[trigger] talk[j]).1 == answers[at + j] && disposing(
            entries,
            answers.take(at + j),
            at,
        ) == FlowView::<int>::Ask(talk[j].0)
}

proof fn lemma_gone_later(entry: EntryView, talk: Talk, c: int)
    requires
        0 <= c <= talk.len(),
        entry_is_gone(entry, talk.skip(c)),
    ensures
        entry_is_gone(entry, talk),
{
    let rest = talk.skip(c);
    let a = (RequestView::Remove(entry.path()), ReplyView::Done);
    let b = (RequestView::Exists(entry.path()), ReplyView::Flag(false));
    if rest.contains(a) {
        assert(talk[rest.index_of(a) + c] == a);
    } else {
        assert(talk[rest.index_of(b) + c] == b);
    }
}

/// Removing files goes on with what is left after the first one was seen to.
proof fn lemma_disposal_rest(
    entries: Seq<EntryView>,
    answers: Seq<ReplyView>,
    at: int,
    talk: Talk,
    c: int,
)
    requires
        is_disposal_talk(entries, answers, at, talk),
        0 <= c <= talk.len(),
        entries.len() > 0,
        forall|j: int|
            c <= j < talk.len() ==> disposing(entries, #[trigger] answers.take(at + j), at)
                == disposing(entries.skip(1), answers.take(at + j), at + c),
    ensures
        is_disposal_talk(entries.skip(1), answers, at + c, talk.skip(c)),
{
    let rest = talk.skip(c);
    assert forall|j: int| 0 <= j < rest.len() implies (#[trigger] rest[j]).1 == answers[at + c
        + j] && disposing(entries.skip(1), answers.take(at + c + j), at + c) == FlowView::<
        int,
    >::Ask(rest[j].0) by {
        assert(rest[j] == talk[c + j]);
        assert(answers.take(at + (c + j)) == answers.take(at + c + j));
    }
}

/// Removing files sees to them one after the other.
proof fn lemma_disposal_talk(
    entries: Seq<EntryView>,
    answers: Seq<ReplyView>,
    at: int,
    talk: Talk,
)
    requires
        is_disposal_talk(entries, answers, at, talk),
    ensures
        ({
            let own = own_entries(entries);
            match disposing(entries, answers, at) {
                FlowView::Ask(request) => {
                    &&& !all_settled(own.len(), talk)
                    &&& disposal_fits(own, talk, request)
                },
                FlowView::Done(used) => used == answers.len() ==> {
                    &&& all_settled(own.len(), talk)
                    &&& settled_after(own.len(), talk) == talk.len()
                    &&& forall|i: int|
                        0 <= i < own.len() ==> entry_is_gone(#[trigger] own[i], talk)
                },
                FlowView::Fail(_) => true,
            }
        }),
    decreases entries.len(),
{
    reveal_with_fuel(count_settled, 3);
    reveal_with_fuel(all_settled, 3);
    reveal_with_fuel(settled_after, 3);
    let own = own_entries(entries);
    if entries.len() > 0 {
        let entry = entries[0];
        let rest = entries.skip(1);
        let left = own_entries(rest);
        let c: int = match entry {
            EntryView::Project(_) => 0,
            EntryView::Folder(_) => 1,
            _ => if talk.len() > 0 && talk[0].1 == ReplyView::Flag(true) {
                2
            } else {
                1
            },
        };
        if talk.len() > 0 {
            assert(answers.take(at + 0).len() == at);
            assert(talk[0].1 == answers[at + 0]);
        }
        if talk.len() > 1 {
            assert(answers.take(at + 1).len() == at + 1);
            assert(talk[1].1 == answers[at + 1]);
            assert(answers.take(at + 1)[at] == answers[at]);
        }
        if talk.len() >= c && !(disposing(entries, answers, at) is Fail) {
            assert forall|j: int| c <= j < talk.len() implies disposing(
                entries,
                #[trigger] answers.take(at + j),
                at,
            ) == disposing(rest, answers.take(at + j), at + c) by {
                let part = answers.take(at + j);
                if c > 0 {
                    assert(part[at] == answers[at]);
                }
                if c > 1 {
                    assert(part[at + 1] == answers[at + 1]);
                }
            }
            lemma_disposal_rest(entries, answers, at, talk, c);
            let more = talk.skip(c);
            lemma_disposal_talk(rest, answers, at + c, more);
            assert(disposing(entries, answers, at) == disposing(rest, answers, at + c));
            if c > 0 {
                assert(own =~= seq![entry] + left);
                assert forall|i: int| 0 <= i < left.len() implies own[i + 1] == left[i] by {}
                if c == 1 {
                    assert(is_settled(talk[0]));
                } else {
                    assert(!is_settled(talk[0]));
                    assert(is_settled(talk[1]));
                    assert(talk.skip(1)[0] == talk[1]);
                    assert(talk.skip(1).skip(1) =~= more);
                }
                assert(count_settled(talk) == 1 + count_settled(more));
                assert(all_settled(own.len(), talk) == all_settled(left.len(), more));
                assert(settled_after(own.len(), talk) == c + settled_after(left.len(), more));
                if more.len() > 0 {
                    assert(talk.last() == more.last());
                }
                assert(entry_is_gone(entry, talk)) by {
                    assert(talk[c - 1] == talk[c - 1]);
                }
                assert forall|i: int|
                    0 <= i < own.len() && (forall|k: int|
                        0 <= k < left.len() ==> entry_is_gone(
                            #[trigger] left[k],
                            more,
                        )) implies entry_is_gone(#[trigger] own[i], talk) by {
                    if i > 0 {
                        assert(own[i] == left[i - 1]);
                        lemma_gone_later(own[i], talk, c);
                    }
                }
            } else {
                assert(more =~= talk);
            }
        } else if c > 0 && talk.len() < c {
            assert(own =~= seq![entry] + left);
            if talk.len() == 1 {
                assert(talk.skip(1).len() == 0);
                assert(count_settled(talk.skip(1)) == 0);
            }
        }
    }
}

/// What was seen to stays seen to.
proof fn lemma_settled_longer(count: nat, talk: Talk, more: Talk)
    requires
        all_settled(count, talk),
    ensures
        all_settled(count, talk + more),
        settled_after(count, talk + more) == settled_after(count, talk),
    decreases talk.len(),
{
    if count > 0 {
        let left = if is_settled(talk[0]) {
            (count - 1) as nat
        } else {
            count
        };
        lemma_settled_longer(left, talk.skip(1), more);
        assert((talk + more).skip(1) =~= talk.skip(1) + more);
        assert((talk + more)[0] == talk[0]);
    }
}

/// The instance would be a single file without its only child: it is a folder with its file in it.
pub open spec fn can_fold(parent: InstanceView) -> bool {
    &&& parent.children.len() == 1
    &&& parent.meta.source.inner is Path
    &&& first_file(parent.meta.source.relevants) is Some
}

/// The request is the next one to make an instance that loses its only child a single file: the
/// first rule that matches its file gives the new place, the file is moved there, the data file
/// too if it has one and a place is found, and the folder is removed.
pub open spec fn folding_fits(parent: InstanceView, talk: Talk, request: RequestView) -> bool {
    let rules = rule_numbers(parent.meta.context);
    let folder = parent.meta.source.inner->Path_0;
    let file = first_file(parent.meta.source.relevants);
    let data = first_data(parent.meta.source.relevants);
    can_fold(parent) && match request {
        RequestView::MatchesChild { rules: asked, path } => talk.len() == 0 && asked == rules
            && file == Some(path),
        RequestView::Locate { rule, path, name, is_dir } => {
            &&& talk.len() == 1
            &&& talk[0].1 matches ReplyView::Flags(flags) && first_match(rules, flags) == Some(rule)
            &&& path == folder
            &&& name == name_of(folder)
            &&& !is_dir
        },
        RequestView::Rename(from, to) => {
            ||| talk.len() == 2 && file == Some(from) && talk[1].1 == ReplyView::Place(Some(to))
            ||| talk.len() == 4 && data == Some(from) && (talk[3].1 matches ReplyView::Places(
                places,
            ) && first_place(places) == Some(to))
        },
        RequestView::LocateEach { rules: asked, path, name, is_dir } => {
            &&& talk.len() == 3
            &&& talk[2].1 is Done
            &&& data is Some
            &&& asked == numbers_of_type(parent.meta.context, Middleware::InstanceData)
            &&& path == folder
            &&& name == name_of(folder)
            &&& !is_dir
        },
        RequestView::Remove(path) => path == folder && match data {
            None => talk.len() == 3 && talk[2].1 is Done,
            Some(_) => talk[3].1 matches ReplyView::Places(places) && if first_place(places)
                is None {
                talk.len() == 4
            } else {
                talk.len() == 5 && talk[4].1 is Done
            },
        },
        _ => false,
    }
}

/// What an instance that loses a child has become: the same, or a single file at its new place,
/// with its data file if that was moved, once the folder is gone.
pub open spec fn folding_ends(
    parent: InstanceView,
    talk: Talk,
    source: Option<SourceView>,
) -> bool {
    let rules = rule_numbers(parent.meta.context);
    let folder = parent.meta.source.inner->Path_0;
    if !can_fold(parent) {
        talk.len() == 0 && source is None
    } else {
        match source {
            None => {
                ||| talk.len() == 1 && (talk[0].1 matches ReplyView::Flags(flags) && first_match(
                    rules,
                    flags,
                ) is None)
                ||| talk.len() == 2 && talk[1].1 == ReplyView::Place(None)
            },
            Some(source) => {
                &&& talk.len() > 3
                &&& talk.last() == (RequestView::Remove(folder), ReplyView::Done)
                &&& talk[1].1 matches ReplyView::Place(Some(new)) && source.inner == KindView::Path(
                    new,
                ) && source.relevants == (if first_data(parent.meta.source.relevants) is Some {
                    match first_place(talk[3].1->Places_0) {
                        Some(to) => seq![EntryView::File(new), EntryView::Data(to)],
                        None => seq![EntryView::File(new)],
                    }
                } else {
                    seq![EntryView::File(new)]
                })
            },
        }
    }
}

/// The talk is what seeing to the instance above asks and is told from `at` on.
spec fn is_leaving_talk(
    parent: InstanceView,
    answers: Seq<ReplyView>,
    at: int,
    talk: Talk,
) -> bool {
    &&& 0 <= at
    &&& answers.len() == at + talk.len()
    &&& forall|j: int|
        0 <= j < talk.len() ==> (#[trigger] talk[j]).1 == answers[at + j] && (leaving(
            Some(parent),
            answers.take(at + j),
            at,
        ) matches FlowView::Ask(asked) && asked == talk[j].0)
}

proof fn lemma_leaving_talk(
    parent: InstanceView,
    answers: Seq<ReplyView>,
    at: int,
    talk: Talk,
)
    requires
        is_leaving_talk(parent, answers, at, talk),
    ensures
        match leaving(Some(parent), answers, at) {
            FlowView::Ask(request) => folding_fits(parent, talk, request),
            FlowView::Done(folded) => folded.used == answers.len() ==> folding_ends(
                parent,
                talk,
                folded.source,
            ),
            FlowView::Fail(_) => true,
        },
{
    assert(talk.len() > 0 ==> talk[0].1 == answers[at + 0]);
    assert(talk.len() > 1 ==> talk[1].1 == answers[at + 1]);
    assert(talk.len() > 2 ==> talk[2].1 == answers[at + 2]);
    assert(talk.len() > 3 ==> talk[3].1 == answers[at + 3]);
    assert(talk.len() > 4 ==> talk[4].1 == answers[at + 4]);
    match leaving(Some(parent), answers, at) {
        FlowView::Done(folded) => {
            if folded.used == answers.len() && folded.source is Some {
                let last = talk.len() - 1;
                assert(talk[last].1 == answers[at + last]);
                let part = answers.take(at + last);
                assert forall|j: int| at <= j < at + last implies part[j] == answers[j] by {}
                assert(leaving(Some(parent), part, at) == FlowView::<
                    FoldedView,
                >::Ask(talk[last].0));
                let new = talk[1].1->Place_0->0;
                if first_data(parent.meta.source.relevants) is Some {
                    match first_place(talk[3].1->Places_0) {
                        Some(to) => {
                            assert(seq![EntryView::File(new)].push(EntryView::Data(to)) =~= seq![
                                EntryView::File(new),
                                EntryView::Data(to),
                            ]);
                        },
                        None => {},
                    }
                }
            }
        },
        _ => {},
    }
}

proof fn lemma_left_before(parent: InstanceView, answers: Seq<ReplyView>, at: int, k: int)
    requires
        0 <= at,
        leaving(Some(parent), answers, at) matches FlowView::Done(folded) && folded.used <= k
            <= answers.len(),
    ensures
        leaving(Some(parent), answers.take(k), at) == leaving(Some(parent), answers, at),
{
    let part = answers.take(k);
    assert forall|j: int| 0 <= j < k implies part[j] == answers[j] by {}
}

/// What was removed stays removed when more answers are there.
proof fn lemma_disposed_after(entries: Seq<EntryView>, answers: Seq<ReplyView>, at: int, k: int)
    requires
        0 <= at <= k <= answers.len(),
        disposing(entries, answers.take(k), at) is Done,
    ensures
        disposing(entries, answers, at) == disposing(entries, answers.take(k), at),
        at <= disposing(entries, answers, at)->Done_0 <= k,
    decreases entries.len(),
{
    let part = answers.take(k);
    if entries.len() > 0 {
        let rest = entries.skip(1);
        match entries[0] {
            EntryView::Project(_) => {
                lemma_disposed_after(rest, answers, at, k);
            },
            EntryView::Folder(_) => {
                assert(part[at] == answers[at]);
                lemma_disposed_after(rest, answers, at + 1, k);
            },
            EntryView::File(_) | EntryView::Data(_) => {
                assert(part[at] == answers[at]);
                if part[at]->Flag_0 {
                    assert(part[at + 1] == answers[at + 1]);
                    lemma_disposed_after(rest, answers, at + 2, k);
                } else {
                    lemma_disposed_after(rest, answers, at + 1, k);
                }
            },
        }
    }
}

/// The request is the next one to remove the files of an instance and to see to the one above.
pub open spec fn clearing_fits(
    meta: MetaView,
    parent: Option<InstanceView>,
    talk: Talk,
    request: RequestView,
) -> bool {
    let own = own_entries(meta.source.relevants);
    if !all_settled(own.len(), talk) {
        disposal_fits(own, talk, request)
    } else {
        parent matches Some(parent) && folding_fits(
            parent,
            talk.skip(settled_after(own.len(), talk)),
            request,
        )
    }
}

/// The talk saw to all files of an instance and to the instance above, which has this source now,
/// if it got a new one.
pub open spec fn clearing_ends(
    meta: MetaView,
    parent: Option<InstanceView>,
    talk: Talk,
    source: Option<SourceView>,
) -> bool {
    let own = own_entries(meta.source.relevants);
    &&& all_settled(own.len(), talk)
    &&& forall|i: int| 0 <= i < own.len() ==> entry_is_gone(#[trigger] own[i], talk)
    &&& parent matches Some(parent) && folding_ends(
        parent,
        talk.skip(settled_after(own.len(), talk)),
        source,
    )
}

/// The talk is what clearing an instance away asks and is told from `at` on.
spec fn is_clearing_talk(
    meta: MetaView,
    parent: Option<InstanceView>,
    answers: Seq<ReplyView>,
    at: int,
    talk: Talk,
) -> bool {
    &&& 0 <= at
    &&& answers.len() == at + talk.len()
    &&& forall|j: int|
        0 <= j < talk.len() ==> (#[trigger] talk[j]).1 == answers[at + j] && (clearing_away(
            meta,
            parent,
            answers.take(at + j),
            at,
        ) matches FlowView::Ask(asked) && asked == talk[j].0)
}

proof fn lemma_clearing_talk(
    meta: MetaView,
    parent: Option<InstanceView>,
    answers: Seq<ReplyView>,
    at: int,
    talk: Talk,
)
    requires
        is_clearing_talk(meta, parent, answers, at, talk),
    ensures
        match clearing_away(meta, parent, answers, at) {
            FlowView::Ask(request) => clearing_fits(meta, parent, talk, request),
            FlowView::Done(folded) => folded.used == answers.len() ==> clearing_ends(
                meta,
                parent,
                talk,
                folded.source,
            ),
            FlowView::Fail(_) => true,
        },
{
    let entries = meta.source.relevants;
    let own = own_entries(entries);
    assert(answers.take(answers.len() as int) =~= answers);
    match disposing(entries, answers, at) {
        FlowView::Ask(_) => {
            assert forall|j: int| 0 <= j < talk.len() implies (#[trigger] talk[j]).1 == answers[at
                + j] && disposing(entries, answers.take(at + j), at) == FlowView::<int>::Ask(
                talk[j].0,
            ) by {
                if disposing(entries, answers.take(at + j), at) is Done {
                    lemma_disposed_after(entries, answers, at, at + j);
                }
            }
            lemma_disposal_talk(entries, answers, at, talk);
        },
        FlowView::Done(used) => {
            lemma_disposed_after(entries, answers, at, answers.len() as int);
            let d = used - at;
            let first = talk.take(d);
            let rest = talk.skip(d);
            let part = answers.take(used);
            lemma_disposed_before(entries, answers, at, used);
            assert forall|j: int| 0 <= j < first.len() implies (#[trigger] first[j]).1 == part[at
                + j] && disposing(entries, part.take(at + j), at) == FlowView::<int>::Ask(
                first[j].0,
            ) by {
                assert(first[j] == talk[j]);
                assert(part.take(at + j) =~= answers.take(at + j));
                if disposing(entries, answers.take(at + j), at) is Done {
                    lemma_disposed_after(entries, answers, at, at + j);
                }
            }
            lemma_disposal_talk(entries, part, at, first);
            assert(first + rest =~= talk);
            lemma_settled_longer(own.len(), first, rest);
            assert forall|i: int| 0 <= i < own.len() implies entry_is_gone(
                #[trigger] own[i],
                talk,
            ) by {
                let a = (RequestView::Remove(own[i].path()), ReplyView::Done);
                let b = (RequestView::Exists(own[i].path()), ReplyView::Flag(false));
                assert(entry_is_gone(own[i], first));
                if first.contains(a) {
                    assert(talk[first.index_of(a)] == a);
                } else {
                    assert(talk[first.index_of(b)] == b);
                }
            }
            match parent {
                Some(parent) => {
                    assert forall|j: int| 0 <= j < rest.len() implies (#[trigger] rest[j]).1
                        == answers[used + j] && (leaving(
                        Some(parent),
                        answers.take(used + j),
                        used,
                    ) matches FlowView::Ask(asked) && asked == rest[j].0) by {
                        assert(rest[j] == talk[d + j]);
                        lemma_disposed_before(entries, answers, at, used + j);
                        assert(answers.take(at + (d + j)) == answers.take(used + j));
                    }
                    lemma_leaving_talk(parent, answers, used, rest);
                },
                None => {},
            }
        },
        FlowView::Fail(_) => {},
    }
}

/// An instance has files of its own to remove.
pub open spec fn has_files(meta: MetaView) -> bool {
    match meta.source.inner {
        KindView::Path(_) => true,
        KindView::Project(_, _, node, _) => node.path is Some,
        KindView::Nowhere => false,
    }
}

/// The project that is saved is the one that was loaded without the node `own` below the node that
/// `above` leads to, and without any other change.
pub open spec fn node_is_taken(
    loaded: NodeView,
    saved: NodeView,
    above: Seq<Seq<char>>,
    own: Seq<char>,
) -> bool {
    &&& same_elsewhere(saved, loaded, above)
    &&& match (node_at(loaded, above), node_at(saved, above)) {
        (Some(before), Some(after)) => {
            &&& own_words(after) == own_words(before)
            &&& before.tree.contains_key(own)
            &&& after.tree == before.tree.remove(own)
        },
        _ => false,
    }
}

/// The request is the next one of a removal: the project is loaded first and saved last, with the
/// node taken from it, and the files are seen to in between.
pub open spec fn removal_fits(
    meta: MetaView,
    parent: Option<InstanceView>,
    talk: Talk,
    request: RequestView,
) -> bool {
    match meta.source.inner {
        KindView::Path(_) => clearing_fits(meta, parent, talk, request),
        KindView::Project(own, path, node, node_path) => if talk.len() == 0 {
            request == RequestView::Load(path)
        } else {
            &&& talk[0].0 == RequestView::Load(path)
            &&& talk[0].1 matches ReplyView::Project(loaded) && match request {
                RequestView::Save { path: file, project } => {
                    &&& file == path
                    &&& node_is_taken(loaded, project, parent_path(node_path), own)
                    &&& if node.path is Some {
                        exists|source: Option<SourceView>| #[trigger]
                            clearing_ends(meta, parent, talk.skip(1), source)
                    } else {
                        talk.len() == 1
                    }
                },
                _ => node.path is Some && clearing_fits(meta, parent, talk.skip(1), request),
            }
        },
        KindView::Nowhere => false,
    }
}

/// The talk is what a removal asks and is told.
spec fn is_removal_talk(
    id: Ref,
    meta: MetaView,
    parent: Option<InstanceView>,
    talk: Talk,
    answers: Seq<ReplyView>,
) -> bool {
    &&& answers.len() == talk.len()
    &&& forall|j: int|
        0 <= j < talk.len() ==> (#[trigger] talk[j]).1 == answers[j] && (removing(
            id,
            meta,
            parent,
            answers.take(j),
        ) matches FlowView::Ask(asked) && asked == talk[j].0)
}

/// Clearing away does not depend on answers that it does not use.
proof fn lemma_cleared_before(
    meta: MetaView,
    parent: Option<InstanceView>,
    answers: Seq<ReplyView>,
    at: int,
    k: int,
)
    requires
        0 <= at <= answers.len(),
        clearing_away(meta, parent, answers, at) matches FlowView::Done(folded) && folded.used <= k
            <= answers.len(),
    ensures
        clearing_away(meta, parent, answers.take(k), at) == clearing_away(
            meta,
            parent,
            answers,
            at,
        ),
        at <= clearing_away(meta, parent, answers, at)->Done_0.used,
{
    let entries = meta.source.relevants;
    assert(answers.take(answers.len() as int) =~= answers);
    lemma_disposed_after(entries, answers, at, answers.len() as int);
    let used = disposing(entries, answers, at)->Done_0;
    lemma_leaving(meta, parent, answers, used);
    lemma_disposed_before(entries, answers, at, k);
    match parent {
        Some(parent) => {
            lemma_left_before(parent, answers, used, k);
        },
        None => {},
    }
}

/// Clearing away goes on the same way when more answers are there.
proof fn lemma_cleared_after(
    meta: MetaView,
    parent: Option<InstanceView>,
    answers: Seq<ReplyView>,
    at: int,
    k: int,
)
    requires
        0 <= at <= k <= answers.len(),
        clearing_away(meta, parent, answers.take(k), at) is Done,
    ensures
        clearing_away(meta, parent, answers, at) == clearing_away(
            meta,
            parent,
            answers.take(k),
            at,
        ),
        clearing_away(meta, parent, answers, at)->Done_0.used <= k,
{
    let entries = meta.source.relevants;
    lemma_disposed_after(entries, answers, at, k);
    let part = answers.take(k);
    assert forall|j: int| 0 <= j < k implies part[j] == answers[j] by {}
}

/// All that a removal has to do outside the tree was asked for, and this is the new source of the
/// instance above, if it got one.
pub open spec fn removal_is_over(
    meta: MetaView,
    parent: Option<InstanceView>,
    talk: Talk,
    source: Option<SourceView>,
) -> bool {
    match meta.source.inner {
        KindView::Path(_) => clearing_ends(meta, parent, talk, source),
        KindView::Project(own, path, node, node_path) => {
            &&& talk.len() > 1
            &&& talk[0].0 == RequestView::Load(path)
            &&& talk.last().0 matches RequestView::Save { path: file, project } && file == path && (
            talk[0].1 matches ReplyView::Project(loaded) && node_is_taken(
                loaded,
                project,
                parent_path(node_path),
                own,
            ))
            &&& if node.path is Some {
                clearing_ends(meta, parent, talk.drop_last().skip(1), source)
            } else {
                talk.len() == 2 && source is None
            }
        },
        KindView::Nowhere => false,
    }
}

/// The end of a removal, as far as what is outside the tree is concerned.
pub open spec fn removal_closes(
    meta: MetaView,
    parent: Option<InstanceView>,
    talk: Talk,
    source: Option<SourceView>,
) -> bool {
    &&& removal_is_over(meta, parent, talk, source)
    &&& meta.source.inner is Project ==> talk.last().1 is Done
}

proof fn lemma_removal_fits(
    id: Ref,
    meta: MetaView,
    parent: Option<InstanceView>,
    talk: Talk,
    answers: Seq<ReplyView>,
    request: RequestView,
)
    requires
        is_removal_talk(id, meta, parent, talk, answers),
        !(meta.source.inner is Nowhere),
        removing(id, meta, parent, answers) matches FlowView::Ask(asked) && asked == request,
    ensures
        removal_fits(meta, parent, talk, request),
{
    match meta.source.inner {
        KindView::Path(_) => {
            assert forall|j: int| 0 <= j < talk.len() implies (#[trigger] talk[j]).1 == answers[0
                + j] && (clearing_away(meta, parent, answers.take(0 + j), 0) matches FlowView::Ask(
                asked,
            ) && asked == talk[j].0) by {}
            lemma_clearing_talk(meta, parent, answers, 0, talk);
        },
        KindView::Project(own, path, node, node_path) => {
            if talk.len() > 0 {
                let above = parent_path(node_path);
                assert(answers.take(0).len() == 0);
                assert(talk[0].1 == answers[0]);
                let loaded = answers[0]->Project_0;
                let old_parent = node_at(loaded, above)->0;
                replacing_a_node_keeps_the_others(
                    loaded,
                    above,
                    NodeView { tree: old_parent.tree.remove(own), ..old_parent },
                );
                if node.path is Some {
                    lemma_custom_talk(id, meta, parent, talk, answers);
                } else {
                    if talk.len() > 1 {
                        assert(answers.take(1)[0] == answers[0]);
                        assert(answers.take(1).len() == 1);
                        assert(talk[1].1 == answers[1]);
                    }
                }
            }
        },
        KindView::Nowhere => {},
    }
}

/// What a removal of a node with files asks after the project is loaded.
proof fn lemma_custom_talk(
    id: Ref,
    meta: MetaView,
    parent: Option<InstanceView>,
    talk: Talk,
    answers: Seq<ReplyView>,
)
    requires
        is_removal_talk(id, meta, parent, talk, answers),
        meta.source.inner matches KindView::Project(_, _, node, _) && node.path is Some,
        talk.len() > 0,
        removing(id, meta, parent, answers) is Ask || removing(id, meta, parent, answers) is Done,
    ensures
        match removing(id, meta, parent, answers) {
            FlowView::Ask(request) => if request is Save {
                clearing_away(meta, parent, answers, 1) matches FlowView::Done(folded)
                    && folded.used == answers.len() && clearing_ends(
                    meta,
                    parent,
                    talk.skip(1),
                    folded.source,
                )
            } else {
                clearing_fits(meta, parent, talk.skip(1), request)
            },
            FlowView::Done(finish) => {
                &&& talk.len() > 1
                &&& talk.last().0 is Save
                &&& clearing_ends(meta, parent, talk.drop_last().skip(1), finish.source)
            },
            FlowView::Fail(_) => true,
        },
{
    assert(talk[0].1 == answers[0]);
    assert(answers.take(0).len() == 0);
    let rest = talk.skip(1);
    let n = answers.len() as int;
    assert(answers.take(n) =~= answers);
    assert forall|j: int| 1 <= j <= n implies #[trigger] answers.take(j)[0] == answers[0] by {}
    lemma_disposing(meta.source.relevants, answers, 1);
    match clearing_away(meta, parent, answers, 1) {
        FlowView::Done(folded) => {
            lemma_cleared_after(meta, parent, answers, 1, n);
            if folded.used < n {
                let before = n - 1;
                lemma_cleared_before(meta, parent, answers, 1, before);
                assert(talk[before].1 == answers[before]);
                assert(answers.take(before)[0] == answers[0]);
                if folded.used < before {
                    assert(answers.take(before)[folded.used] == answers[folded.used]);
                }
                assert(folded.used == before);
                let short = talk.drop_last();
                let part = answers.take(before);
                let inner = short.skip(1);
                lemma_cleared_before(meta, parent, answers, 1, before);
                assert forall|j: int| 0 <= j < inner.len() implies (#[trigger] inner[j]).1
                    == part[1 + j] && (clearing_away(
                    meta,
                    parent,
                    part.take(1 + j),
                    1,
                ) matches FlowView::Ask(asked) && asked == inner[j].0) by {
                    assert(inner[j] == talk[1 + j]);
                    assert(part.take(1 + j) =~= answers.take(1 + j));
                    assert(answers.take(1 + j)[0] == answers[0]);
                    if clearing_away(meta, parent, answers.take(1 + j), 1) is Done {
                        lemma_cleared_after(meta, parent, answers, 1, 1 + j);
                    }
                }
                lemma_clearing_talk(meta, parent, part, 1, inner);
            } else {
                assert forall|j: int| 0 <= j < rest.len() implies (#[trigger] rest[j]).1
                    == answers[1 + j] && (clearing_away(
                    meta,
                    parent,
                    answers.take(1 + j),
                    1,
                ) matches FlowView::Ask(asked) && asked == rest[j].0) by {
                    assert(rest[j] == talk[1 + j]);
                    assert(answers.take(1 + j)[0] == answers[0]);
                    if clearing_away(meta, parent, answers.take(1 + j), 1) is Done {
                        lemma_cleared_after(meta, parent, answers, 1, 1 + j);
                    }
                }
                lemma_clearing_talk(meta, parent, answers, 1, rest);
            }
        },
        FlowView::Ask(request) => {
            assert forall|j: int| 0 <= j < rest.len() implies (#[trigger] rest[j]).1 == answers[1
                + j] && (clearing_away(meta, parent, answers.take(1 + j), 1) matches FlowView::Ask(
                asked,
            ) && asked == rest[j].0) by {
                assert(rest[j] == talk[1 + j]);
                assert(answers.take(1 + j)[0] == answers[0]);
                if clearing_away(meta, parent, answers.take(1 + j), 1) is Done {
                    lemma_cleared_after(meta, parent, answers, 1, 1 + j);
                }
            }
            lemma_clearing_talk(meta, parent, answers, 1, rest);
            lemma_clearing_never_saves(meta, parent, answers, 1);
        },
        FlowView::Fail(_) => {},
    }
}

proof fn lemma_clearing_never_saves(
    meta: MetaView,
    parent: Option<InstanceView>,
    answers: Seq<ReplyView>,
    at: int,
)
    ensures
        clearing_away(meta, parent, answers, at) matches FlowView::Ask(request) ==> !(request
            is Save),
{
    lemma_disposing(meta.source.relevants, answers, at);
}

/// A removal that ends has asked for all that it had to do outside the tree, and fails then only
/// where the project was not saved.
proof fn lemma_removal_closes(
    id: Ref,
    meta: MetaView,
    parent: Option<InstanceView>,
    talk: Talk,
    answers: Seq<ReplyView>,
)
    requires
        is_removal_talk(id, meta, parent, talk, answers),
        !(meta.source.inner is Nowhere),
        removing(id, meta, parent, answers) is Done,
    ensures
        removal_is_over(meta, parent, talk, removing(id, meta, parent, answers)->Done_0.source),
        removing(id, meta, parent, answers)->Done_0.result is Ok <==> (meta.source.inner is Path
            || talk.last().1 is Done),
{
    let n = answers.len() as int;
    assert(answers.take(n) =~= answers);
    match meta.source.inner {
        KindView::Path(_) => {
            lemma_cleared_after(meta, parent, answers, 0, n);
            if clearing_away(meta, parent, answers, 0)->Done_0.used < n {
                lemma_cleared_before(meta, parent, answers, 0, n - 1);
                assert(talk[n - 1].1 == answers[n - 1]);
            }
            assert forall|j: int| 0 <= j < talk.len() implies (#[trigger] talk[j]).1 == answers[0
                + j] && (clearing_away(meta, parent, answers.take(0 + j), 0) matches FlowView::Ask(
                asked,
            ) && asked == talk[j].0) by {}
            lemma_clearing_talk(meta, parent, answers, 0, talk);
        },
        KindView::Project(own, path, node, node_path) => {
            let above = parent_path(node_path);
            assert(answers.take(0).len() == 0);
            assert(talk[0].1 == answers[0]);
            let loaded = answers[0]->Project_0;
            let old_parent = node_at(loaded, above)->0;
            replacing_a_node_keeps_the_others(
                loaded,
                above,
                NodeView { tree: old_parent.tree.remove(own), ..old_parent },
            );
            if node.path is Some {
                lemma_custom_talk(id, meta, parent, talk, answers);
                let before = n - 1;
                let part = answers.take(before);
                assert(talk[before].1 == answers[before]);
                assert(part[0] == answers[0]);
                lemma_cleared_after(meta, parent, answers, 1, n);
                let used = clearing_away(meta, parent, answers, 1)->Done_0.used;
                lemma_cleared_before(meta, parent, answers, 1, before);
                if used < before {
                    assert(part[used] == answers[used]);
                }
                assert(used == before);
            } else {
                assert(answers.take(1)[0] == answers[0]);
                assert(answers.take(1).len() == 1);
                assert(talk[1].1 == answers[1]);
                if n > 2 {
                    assert(answers.take(2)[0] == answers[0]);
                    assert(answers.take(2)[1] == answers[1]);
                    assert(talk[2].1 == answers[2]);
                }
            }
        },
        KindView::Nowhere => {},
    }
}

/// What a removal asks and is told fits its instance, in content and in order.
spec fn removal_talk_is_heard(
    id: Ref,
    tree: TreeView,
    replies: Seq<ReplyView>,
    talk: Talk,
    k: int,
) -> bool {
    is_removal_talk(id, tree[id].meta, parent_of(tree, id), talk.take(k), replies.take(k))
}

proof fn lemma_heard(id: Ref, tree: TreeView, replies: Seq<ReplyView>)
    requires
        tree.contains_key(id),
    ensures
        ({
            let talk = removal_talk(removal_started(id, tree), replies);
            let end = removal_run(removal_started(id, tree), replies);
            let n = talk.len() as int;
            &&& forall|k: int|
                0 <= k <= talk.len() ==> #[trigger] removal_talk_is_heard(
                    id,
                    tree,
                    replies,
                    talk,
                    k,
                )
            &&& end == removal_step(RemovalView { tree, id, answers: replies.take(n) })
            &&& n <= replies.len()
            &&& talk.take(n) == talk
        }),
{
    let start = RemovalView { tree, id, answers: Seq::empty() };
    let talk = removal_talk(removal_started(id, tree), replies);
    let n = talk.len() as int;
    lemma_removal_talk(start, replies);
    assert forall|k: int| 0 <= k <= replies.len() implies #[trigger] removal_after(
        start,
        replies,
        k,
    ).answers == replies.take(k) by {
        assert(Seq::<ReplyView>::empty() + replies.take(k) =~= replies.take(k));
    }
    assert(removal_after(start, replies, n).answers == replies.take(n));
    assert(talk.take(n) =~= talk);
    assert forall|k: int| 0 <= k <= talk.len() implies #[trigger] removal_talk_is_heard(
        id,
        tree,
        replies,
        talk,
        k,
    ) by {
        let part = talk.take(k);
        assert forall|j: int| 0 <= j < part.len() implies (#[trigger] part[j]).1 == replies.take(
            k,
        )[j] && (removing(
            id,
            tree[id].meta,
            parent_of(tree, id),
            replies.take(k).take(j),
        ) matches FlowView::Ask(asked) && asked == part[j].0) by {
            assert(part[j] == talk[j]);
            assert(replies.take(k).take(j) =~= replies.take(j));
            assert(removal_after(start, replies, j).answers == replies.take(j));
        }
    }
}

/// Each request of a removal is the one that is due after what was asked and told before: the
/// instance's own files and folders are seen to one after the other and no project file is, the
/// instance above becomes a single file if it can, and a project is loaded first and saved last,
/// without the instance's node and otherwise as it was loaded.
pub proof fn removal_asks_what_is_due(id: Ref, tree: TreeView, replies: Seq<ReplyView>)
    requires
        tree.contains_key(id),
        !(tree[id].meta.source.inner is Nowhere),
    ensures
        ({
            let talk = removal_talk(removal_started(id, tree), replies);
            let meta = tree[id].meta;
            let parent = parent_of(tree, id);
            &&& forall|k: int|
                0 <= k < talk.len() ==> removal_fits(
                    meta,
                    parent,
                    talk.take(k),
                    (#[trigger] talk[k]).0,
                )
            &&& removal_run(removal_started(id, tree), replies) matches StepView::Ask(request, _)
                ==> removal_fits(meta, parent, talk, request)
        }),
{
    let talk = removal_talk(removal_started(id, tree), replies);
    let meta = tree[id].meta;
    let parent = parent_of(tree, id);
    let n = talk.len() as int;
    lemma_heard(id, tree, replies);
    assert forall|k: int| 0 <= k < talk.len() implies removal_fits(
        meta,
        parent,
        talk.take(k),
        (#[trigger] talk[k]).0,
    ) by {
        assert(removal_talk_is_heard(id, tree, replies, talk, k));
        assert(removal_talk_is_heard(id, tree, replies, talk, k + 1));
        let more = talk.take(k + 1);
        assert(more[k] == talk[k]);
        assert(replies.take(k + 1).take(k) =~= replies.take(k));
        lemma_removal_fits(id, meta, parent, talk.take(k), replies.take(k), talk[k].0);
    }
    match removal_run(removal_started(id, tree), replies) {
        StepView::Ask(request, _) => {
            assert(removal_talk_is_heard(id, tree, replies, talk, n));
            lemma_removal_fits(id, meta, parent, talk, replies.take(n), request);
        },
        _ => {},
    }
}

/// When a removal succeeds, every file and folder of the instance that is no project file was
/// removed or was found not to be there.
pub proof fn successful_removal_leaves_no_files(
    id: Ref,
    tree: TreeView,
    replies: Seq<ReplyView>,
    i: int,
)
    requires
        tree.contains_key(id),
        has_files(tree[id].meta),
        0 <= i < tree[id].meta.source.relevants.len(),
        !(tree[id].meta.source.relevants[i] is Project),
    ensures
        removal_run(removal_started(id, tree), replies) matches StepView::Stop(Ok(_), _, _)
            ==> entry_is_gone(
            tree[id].meta.source.relevants[i],
            removal_talk(removal_started(id, tree), replies),
        ),
{
    let talk = removal_talk(removal_started(id, tree), replies);
    let meta = tree[id].meta;
    let parent = parent_of(tree, id);
    let n = talk.len() as int;
    let entries = meta.source.relevants;
    let entry = entries[i];
    lemma_heard(id, tree, replies);
    match removal_run(removal_started(id, tree), replies) {
        StepView::Stop(Ok(_), _, _) => {
            assert(removal_talk_is_heard(id, tree, replies, talk, n));
            lemma_removal_closes(id, meta, parent, talk, replies.take(n));
            lemma_own_entry(entries, i);
            let own = own_entries(entries);
            let k = own.index_of(entry);
            if !(meta.source.inner is Path) {
                let inner = talk.drop_last().skip(1);
                assert(entry_is_gone(own[k], inner));
                lemma_gone_later(entry, talk.drop_last(), 1);
                let a = (RequestView::Remove(entry.path()), ReplyView::Done);
                let b = (RequestView::Exists(entry.path()), ReplyView::Flag(false));
                if talk.drop_last().contains(a) {
                    assert(talk[talk.drop_last().index_of(a)] == a);
                } else {
                    assert(talk[talk.drop_last().index_of(b)] == b);
                }
            } else {
                assert(entry_is_gone(own[k], talk));
            }
        },
        _ => {},
    }
}

proof fn lemma_own_entry(entries: Seq<EntryView>, i: int)
    requires
        0 <= i < entries.len(),
        !(entries[i] is Project),
    ensures
        own_entries(entries).contains(entries[i]),
    decreases entries.len(),
{
    let own = own_entries(entries);
    let rest = own_entries(entries.skip(1));
    if i == 0 {
        assert(own[0] == entries[0]);
    } else {
        lemma_own_entry(entries.skip(1), i - 1);
        let k = rest.index_of(entries[i]);
        if entries[0] is Project {
            assert(own[k] == entries[i]);
        } else {
            assert(own[k + 1] == entries[i]);
        }
    }
}

/// When a removal succeeds, all that it had to do outside the tree was done, and the instance above
/// has the source that this came to: the one that it had, or that of a single file.
pub proof fn successful_removal_is_complete(id: Ref, tree: TreeView, replies: Seq<ReplyView>)
    requires
        tree.contains_key(id),
        !(tree[id].meta.source.inner is Nowhere),
    ensures
        removal_run(removal_started(id, tree), replies) matches StepView::Stop(Ok(_), after, _)
            ==> exists|source: Option<SourceView>| #[trigger]
            removal_closes(
                tree[id].meta,
                parent_of(tree, id),
                removal_talk(removal_started(id, tree), replies),
                source,
            ) && (tree[id].parent matches Some(above) ==> after.contains_key(above) ==> after[above]
                .meta == (match source {
                Some(source) => MetaView { source, ..tree[above].meta },
                None => tree[above].meta,
            })),
{
    let talk = removal_talk(removal_started(id, tree), replies);
    let meta = tree[id].meta;
    let parent = parent_of(tree, id);
    let n = talk.len() as int;
    lemma_heard(id, tree, replies);
    match removal_run(removal_started(id, tree), replies) {
        StepView::Stop(Ok(_), after, _) => {
            assert(removal_talk_is_heard(id, tree, replies, talk, n));
            lemma_removal_closes(id, meta, parent, talk, replies.take(n));
            let finish = removing(id, meta, parent, replies.take(n))->Done_0;
            assert(removal_closes(meta, parent, talk, finish.source));
        },
        _ => {},
    }
}

/// Once a project was asked to be saved a removal ends.
proof fn lemma_saved_last(
    id: Ref,
    meta: MetaView,
    parent: Option<InstanceView>,
    talk: Talk,
    answers: Seq<ReplyView>,
)
    requires
        is_removal_talk(id, meta, parent, talk, answers),
        talk.len() > 0,
        talk.last().0 is Save,
        !(meta.source.inner is Nowhere),
    ensures
        removing(id, meta, parent, answers) is Done,
{
    let n = answers.len() as int;
    let part = answers.take(n - 1);
    assert(talk[n - 1].0 is Save);
    match meta.source.inner {
        KindView::Project(own, path, node, node_path) => {
            assert(part.len() > 0);
            assert(part[0] == answers[0]);
            if node.path is Some {
                lemma_clearing_never_saves(meta, parent, part, 1);
                let used = clearing_away(meta, parent, part, 1)->Done_0.used;
                lemma_cleared_after(meta, parent, answers, 1, n - 1);
                assert(used == n - 1);
            }
        },
        _ => {
            lemma_clearing_never_saves(meta, parent, part, 0);
        },
    }
}

/// A removal that failed changed nothing in the tree, unless the project was not saved: then the
/// instance above has the source that its files have come to.
pub proof fn failed_removal_keeps_what_was_done(id: Ref, tree: TreeView, replies: Seq<ReplyView>)
    requires
        tree.contains_key(id),
        !(tree[id].meta.source.inner is Nowhere),
    ensures
        ({
            let talk = removal_talk(removal_started(id, tree), replies);
            removal_run(removal_started(id, tree), replies) matches StepView::Stop(
                Err(_),
                after,
                _,
            ) ==> if talk.len() > 0 && talk.last().0 is Save {
                exists|source: Option<SourceView>| #[trigger]
                    removal_is_over(tree[id].meta, parent_of(tree, id), talk, source) && match (
                        tree[id].parent,
                        source,
                    ) {
                        (Some(above), Some(source)) => tree.contains_key(above) && after
                            == tree.insert(
                            above,
                            InstanceView {
                                meta: MetaView { source, ..tree[above].meta },
                                ..tree[above]
                            },
                        ),
                        (None, Some(_)) => false,
                        (_, None) => after == tree,
                    }
            } else {
                after == tree
            }
        }),
{
    let talk = removal_talk(removal_started(id, tree), replies);
    let meta = tree[id].meta;
    let parent = parent_of(tree, id);
    let n = talk.len() as int;
    let answers = replies.take(n);
    lemma_heard(id, tree, replies);
    assert(removal_talk_is_heard(id, tree, replies, talk, n));
    match removal_run(removal_started(id, tree), replies) {
        StepView::Stop(Err(_), after, _) => {
            match removing(id, meta, parent, answers) {
                FlowView::Done(finish) => {
                    lemma_removal_closes(id, meta, parent, talk, answers);
                    assert(removal_is_over(meta, parent, talk, finish.source));
                },
                _ => {
                    if talk.len() > 0 && talk.last().0 is Save {
                        lemma_saved_last(id, meta, parent, talk, answers);
                    }
                },
            }
        },
        _ => {},
    }
}

/// A removal of an instance that the tree has gives no notice.
pub proof fn removal_gives_no_notice(id: Ref, tree: TreeView, replies: Seq<ReplyView>)
    requires
        tree.contains_key(id),
    ensures
        removal_run(removal_started(id, tree), replies) matches StepView::Stop(_, _, notice)
            ==> notice is None,
{
    lemma_heard(id, tree, replies);
}

} // verus!
