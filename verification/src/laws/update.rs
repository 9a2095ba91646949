//! Laws of updates.
use crate::exchange::{FlowView, ReplyView, RequestView, StepView};
use crate::laws::entries::{is_own_move, renaming_moves_own_files_only};
use crate::meta::{EntryView, KindView, MetaView};
use crate::node::NodeView;
use crate::path::custom_place;
use crate::properties::validated;
use crate::tree::{InstanceView, TreeView};
use crate::write::update::{
    carrying_out, moves, path_updating, project_updating, renamed_meta, revising, update_resumed,
    update_started, update_step, updating, EndView, UpdateView,
};
use rbx_dom_weak::types::{Ref, Variant};
use vstd::prelude::*;

verus! {

/// Where an update stands after replies; it stops listening once it has stopped.
pub open spec fn update_run(
    step: StepView<UpdateView>,
    replies: Seq<ReplyView>,
) -> StepView<UpdateView>
    decreases replies.len(),
{
    match step {
        StepView::Ask(_, update) if replies.len() > 0 => update_run(
            update_resumed(update, replies[0]),
            replies.skip(1),
        ),
        _ => step,
    }
}

/// The tree that an update holds or hands back.
pub open spec fn update_tree(step: StepView<UpdateView>) -> TreeView {
    match step {
        StepView::Ask(_, update) => update.tree,
        StepView::Stop(_, tree, _) => tree,
    }
}

/// A run of an update goes as far as some of the answers lead.
proof fn lemma_run(update: UpdateView, replies: Seq<ReplyView>) -> (used: UpdateView)
    ensures
        update_run(update_step(update), replies) == update_step(used),
        used == (UpdateView { answers: used.answers, ..update }),
        update_step(used) is Ask ==> used.answers == update.answers + replies,
    decreases replies.len(),
{
    match update_step(update) {
        StepView::Ask(_, same) if replies.len() > 0 => {
            let next = UpdateView { answers: update.answers.push(replies[0]), ..update };
            let used = lemma_run(next, replies.skip(1));
            assert(next.answers + replies.skip(1) =~= update.answers + replies);
            used
        },
        _ => {
            if replies.len() == 0 {
                assert(update.answers + replies =~= update.answers);
            }
            update
        },
    }
}

/// An update changes its own instance and no other, and of that neither the class nor the place
/// among the other instances. Until it stops it changes nothing.
pub proof fn update_changes_one_instance(
    id: Ref,
    name: Option<Seq<char>>,
    properties: Option<Map<Seq<char>, Variant>>,
    tree: TreeView,
    replies: Seq<ReplyView>,
)
    ensures
        ({
            let step = update_run(update_started(id, name, properties, tree), replies);
            let after = update_tree(step);
            &&& after.dom() == tree.dom()
            &&& forall|other: Ref|
                tree.contains_key(other) && other != id ==> #[trigger] after[other] == tree[other]
            &&& after[id].class == tree[id].class
            &&& after[id].parent == tree[id].parent
            &&& after[id].children == tree[id].children
            &&& step is Ask ==> after == tree
        }),
{
    if tree.contains_key(id) {
        let update = UpdateView { tree, id, name, properties, answers: Seq::empty() };
        let used = lemma_run(update, replies);
        let after = update_tree(update_step(used));
        assert(after.dom() =~= tree.dom());
    }
}

/// What writing properties leaves of what is known of an instance.
pub(crate) proof fn lemma_revised(
    path: Seq<char>,
    name: Seq<char>,
    class: Seq<char>,
    properties: Map<Seq<char>, Variant>,
    meta: MetaView,
    answers: Seq<ReplyView>,
    at: int,
)
    ensures
        match revising(path, name, class, properties, meta, answers, at) {
            FlowView::Done(revised) => {
                &&& revised.meta.source.inner == meta.source.inner
                &&& revised.meta.context == meta.context
                &&& revised.meta.keep_unknowns == meta.keep_unknowns
                &&& revised.used <= at + 7
            },
            FlowView::Ask(request) => {
                &&& answers.len() < at + 7
                &&& request is Middleware || request is IsDir || request is LocateEach || request
                    is Write || request is WriteData
            },
            FlowView::Fail(_) => true,
        },
{
}

/// Having requests carried out asks for nothing else, and for each only once.
pub(crate) proof fn lemma_carrying_out(requests: Seq<RequestView>, answers: Seq<ReplyView>, at: int)
    ensures
        match carrying_out(requests, answers, at) {
            FlowView::Ask(request) => requests.contains(request) && answers.len() < at
                + requests.len(),
            _ => true,
        },
    decreases requests.len(),
{
    if requests.len() > 0 {
        lemma_carrying_out(requests.skip(1), answers, at + 1);
        match carrying_out(requests, answers, at) {
            FlowView::Ask(request) => {
                if request != requests[0] {
                    let k = requests.skip(1).index_of(request);
                    assert(requests[k + 1] == request);
                } else {
                    assert(requests.contains(requests[0]));
                }
            },
            _ => {},
        }
    }
}

proof fn lemma_moves_count(
    entries: Seq<EntryView>,
    from: Seq<char>,
    to: Seq<char>,
)
    ensures
        moves(entries, from, to).len() <= entries.len(),
    decreases entries.len(),
{
    if entries.len() > 0 {
        lemma_moves_count(entries.drop_last(), from, to);
    }
}

/// What an update of an instance may ask: to move the instance's own files, to write properties,
/// and to load and save the project that the instance is a node of.
pub open spec fn update_may_ask(instance: InstanceView, request: RequestView) -> bool {
    match request {
        RequestView::Rename(_, _) => is_own_move(instance.meta.source.relevants, request),
        RequestView::Load(file) => instance.meta.source.inner.is_in(file),
        RequestView::Save { path: file, project: _ } => instance.meta.source.inner.is_in(file),
        RequestView::Middleware(_) => true,
        RequestView::IsDir(_) => true,
        RequestView::LocateEach { .. } => true,
        RequestView::Write { .. } => true,
        RequestView::WriteData { .. } => true,
        _ => false,
    }
}

/// A main place of the same kind: a path stays a path, a node of a project file one of that file.
pub open spec fn same_kind(before: KindView, after: KindView) -> bool {
    match (before, after) {
        (KindView::Path(_), KindView::Path(_)) => true,
        (KindView::Project(_, a, _, _), KindView::Project(_, b, _, _)) => a == b,
        (KindView::Nowhere, KindView::Nowhere) => true,
        _ => false,
    }
}

/// The properties that are left by an update that was given these.
pub open spec fn given(properties: Option<Map<Seq<char>, Variant>>) -> Option<
    Map<Seq<char>, Variant>,
> {
    match properties {
        Some(properties) => Some(validated(properties)),
        None => None,
    }
}

/// What an update may come to.
spec fn update_is_sound(
    instance: InstanceView,
    name: Option<Seq<char>>,
    properties: Option<Map<Seq<char>, Variant>>,
    answers: Seq<ReplyView>,
    flow: FlowView<EndView>,
) -> bool {
    match flow {
        FlowView::Ask(request) => {
            &&& update_may_ask(instance, request)
            &&& answers.len() < instance.meta.source.relevants.len() + 9
        },
        FlowView::Fail(_) => false,
        FlowView::Done(end) => {
            &&& end.result is Ok ==> end.change.name == name && end.change.properties == given(
                properties,
            ) && end.change.meta is Some
            &&& end.change.name is Some ==> end.change.name == name
            &&& end.change.properties is Some ==> end.change.properties == given(properties)
            &&& end.change.meta matches Some(meta) ==> same_kind(
                instance.meta.source.inner,
                meta.source.inner,
            ) && meta.context == instance.meta.context && meta.keep_unknowns
                == instance.meta.keep_unknowns
        },
    }
}

proof fn lemma_path_updating(
    instance: InstanceView,
    path: Seq<char>,
    name: Option<Seq<char>>,
    properties: Option<Map<Seq<char>, Variant>>,
    answers: Seq<ReplyView>,
)
    requires
        instance.meta.source.inner == KindView::Path(path),
    ensures
        update_is_sound(
            instance,
            name,
            properties,
            answers,
            path_updating(instance, path, name, properties, answers),
        ),
{
    let entries = instance.meta.source.relevants;
    match name {
        None => {
            if properties is Some {
                lemma_revised(
                    path,
                    instance.name,
                    instance.class,
                    validated(properties->0),
                    instance.meta,
                    answers,
                    0,
                );
            }
        },
        Some(new) => {
            let requests = moves(entries, instance.name, new);
            lemma_moves_count(entries, instance.name, new);
            lemma_carrying_out(requests, answers, 0);
            if entries.len() > 0 {
                renaming_moves_own_files_only(entries, instance.name, new, 0);
            }
            if properties is Some {
                lemma_revised(
                    path,
                    new,
                    instance.class,
                    validated(properties->0),
                    renamed_meta(instance.meta, path, instance.name, new),
                    answers,
                    requests.len() as int,
                );
            }
        },
    }
}

proof fn lemma_project_updating(
    instance: InstanceView,
    own: Seq<char>,
    path: Seq<char>,
    node: NodeView,
    node_path: Seq<Seq<char>>,
    name: Option<Seq<char>>,
    properties: Option<Map<Seq<char>, Variant>>,
    answers: Seq<ReplyView>,
)
    requires
        instance.meta.source.inner == KindView::Project(own, path, node, node_path),
    ensures
        update_is_sound(
            instance,
            name,
            properties,
            answers,
            project_updating(instance, own, path, node, node_path, name, properties, answers),
        ),
{
    match (properties, node.path) {
        (Some(properties), Some(custom)) => {
            lemma_revised(
                custom_place(path, custom),
                instance.name,
                instance.class,
                validated(properties),
                instance.meta,
                answers,
                1,
            );
        },
        _ => {},
    }
}

proof fn lemma_updating(
    instance: InstanceView,
    name: Option<Seq<char>>,
    properties: Option<Map<Seq<char>, Variant>>,
    answers: Seq<ReplyView>,
)
    requires
        !(instance.meta.source.inner is Nowhere),
    ensures
        update_is_sound(
            instance,
            name,
            properties,
            answers,
            updating(instance, name, properties, answers),
        ),
{
    match instance.meta.source.inner {
        KindView::Path(path) => lemma_path_updating(instance, path, name, properties, answers),
        KindView::Project(own, path, node, node_path) => lemma_project_updating(
            instance,
            own,
            path,
            node,
            node_path,
            name,
            properties,
            answers,
        ),
        KindView::Nowhere => {},
    }
}

/// After an update that succeeded the instance has the name and the properties that were given,
/// and keeps those that were not.
pub proof fn successful_update_takes_effect(
    id: Ref,
    name: Option<Seq<char>>,
    properties: Option<Map<Seq<char>, Variant>>,
    tree: TreeView,
    replies: Seq<ReplyView>,
)
    requires
        tree.contains_key(id),
        !(tree[id].meta.source.inner is Nowhere),
    ensures
        match update_run(update_started(id, name, properties, tree), replies) {
            StepView::Stop(Ok(_), after, _) => {
                &&& after[id].name == (match name {
                    Some(name) => name,
                    None => tree[id].name,
                })
                &&& after[id].properties == (match properties {
                    Some(properties) => validated(properties),
                    None => tree[id].properties,
                })
            },
            _ => true,
        },
{
    let update = UpdateView { tree, id, name, properties, answers: Seq::empty() };
    let used = lemma_run(update, replies);
    lemma_updating(tree[id], name, properties, used.answers);
}

/// An update never removes anything, moves nothing but the instance's own files, and saves no
/// project but the one that the instance is a node of.
pub proof fn update_asks_only_what_it_may(
    id: Ref,
    name: Option<Seq<char>>,
    properties: Option<Map<Seq<char>, Variant>>,
    tree: TreeView,
    replies: Seq<ReplyView>,
)
    requires
        tree.contains_key(id),
        !(tree[id].meta.source.inner is Nowhere),
    ensures
        update_run(update_started(id, name, properties, tree), replies) matches StepView::Ask(
            request,
            _,
        ) ==> update_may_ask(tree[id], request),
{
    let update = UpdateView { tree, id, name, properties, answers: Seq::empty() };
    let used = lemma_run(update, replies);
    lemma_updating(tree[id], name, properties, used.answers);
}

/// An instance that has a place keeps one of that kind, whatever comes of the update, and what is
/// known of it beside its source stays.
pub proof fn update_keeps_a_place(
    id: Ref,
    name: Option<Seq<char>>,
    properties: Option<Map<Seq<char>, Variant>>,
    tree: TreeView,
    replies: Seq<ReplyView>,
)
    requires
        tree.contains_key(id),
        !(tree[id].meta.source.inner is Nowhere),
    ensures
        ({
            let meta = update_tree(
                update_run(update_started(id, name, properties, tree), replies),
            )[id].meta;
            &&& same_kind(tree[id].meta.source.inner, meta.source.inner)
            &&& meta.context == tree[id].meta.context
            &&& meta.keep_unknowns == tree[id].meta.keep_unknowns
        }),
{
    let update = UpdateView { tree, id, name, properties, answers: Seq::empty() };
    let used = lemma_run(update, replies);
    lemma_updating(tree[id], name, properties, used.answers);
}

/// An update comes to an end: it asks at most once for each file or folder of its instance, and
/// nine times more.
pub proof fn update_ends(
    id: Ref,
    name: Option<Seq<char>>,
    properties: Option<Map<Seq<char>, Variant>>,
    tree: TreeView,
    replies: Seq<ReplyView>,
)
    requires
        tree.contains_key(id),
        !(tree[id].meta.source.inner is Nowhere),
        replies.len() >= tree[id].meta.source.relevants.len() + 9,
    ensures
        update_run(update_started(id, name, properties, tree), replies) is Stop,
{
    let update = UpdateView { tree, id, name, properties, answers: Seq::empty() };
    let used = lemma_run(update, replies);
    lemma_updating(tree[id], name, properties, used.answers);
}

} // verus!
