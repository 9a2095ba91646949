//! Laws of additions to files as a whole: every new instance is written, in order.
use crate::exchange::{FlowView, ReplyView, RequestView, StepView};
use crate::laws::addition::{
    addition_run, addition_tree, fresh, ids, ids_of, lemma_ids, lemma_ids_joined, lemma_ids_left,
    lemma_resumed, lemma_started, sound, under_way, waiting,
};
use crate::laws::content::is_flat;
use crate::laws::refusing::{finds_nothing, is_answer, lemma_job_heeds, step_heeds};
use crate::laws::talk::{addition_talk, lemma_last_reply, Talk};
use crate::laws::tree::coherent;
use crate::laws::writing::{count_ready, is_job_talk, job_ends, job_fits, lemma_job_talk};
use crate::meta::{KindView, MetaView, SourceView};
use crate::path::{cleaned, with_name};
use crate::properties::validated;
use crate::snapshot::SnapshotView;
use crate::tree::{inserted, InstanceView, TreeView};
use crate::write::addition::{
    added_to, addition_resumed, addition_started, job_done, jobs_below, AdditionView, StageView,
};
use crate::write::files::{placing, JobView, PlacedView};
use rbx_dom_weak::types::{Ref, Variant};
use vstd::prelude::*;

verus! {

/// Snapshots below an instance and all that is below them, each before what is below it, with the
/// identity of the instance that each is below.
pub open spec fn in_order(list: Seq<SnapshotView>, parent: Ref) -> Seq<(Ref, SnapshotView)>
    decreases list,
{
    if list.len() == 0 {
        Seq::empty()
    } else {
        seq![(parent, list[0])] + in_order(list[0].children, list[0].id) + in_order(
            list.skip(1),
            parent,
        )
    }
}

/// How many new instances were begun: each begins with the question whether a path is a file.
pub open spec fn count_begun(talk: Talk) -> nat
    decreases talk.len(),
{
    if talk.len() == 0 {
        0
    } else {
        count_begun(talk.drop_last()) + (if talk.last().0 is IsFile {
            1nat
        } else {
            0nat
        })
    }
}

/// The part of a talk that is about one of the new instances.
pub open spec fn part_for(talk: Talk, i: int) -> Talk
    decreases talk.len(),
{
    if talk.len() == 0 {
        Seq::empty()
    } else if count_begun(talk) == i + 1 {
        part_for(talk.drop_last(), i).push(talk.last())
    } else {
        part_for(talk.drop_last(), i)
    }
}

/// New instances with what is known of each and of the instance that it was added to, once it has
/// its files.
pub type Account = Seq<(JobView, PlacedView)>;

/// A new instance goes to the place of the instance that it is below: the first to where the
/// addition starts, each other to where an earlier one of the account was put.
pub open spec fn comes_from(
    all: Seq<(Ref, SnapshotView)>,
    start: JobView,
    account: Account,
    i: int,
    job: JobView,
) -> bool {
    if i == 0 {
        job == start
    } else {
        exists|p: int|
            #![trigger account[p]]
            0 <= p < i && p < account.len() && all[p].1.id == job.parent
                && all[p].1.children.contains(job.snapshot) && job.path == account[p].1.path
                && job.meta == account[p].1.meta
    }
}

/// Each request of a talk is the one that is due for a new instance.
pub open spec fn talk_fits(job: JobView, talk: Talk) -> bool {
    forall|j: int|
        0 <= j < talk.len() ==> job_fits(job, talk.take(j), (#[trigger] talk[j]).0)
}

/// The talk gave a new instance its files, and each request of it was due.
#[verifier::opaque]
pub open spec fn is_written(job: JobView, talk: Talk, placed: PlacedView) -> bool {
    talk_fits(job, talk) && job_ends(job, talk, placed)
}

/// The talk gave new instances their files, one after the other.
pub open spec fn is_account(
    all: Seq<(Ref, SnapshotView)>,
    start: JobView,
    talk: Talk,
    account: Account,
) -> bool {
    &&& account.len() <= all.len()
    &&& forall|i: int|
        0 <= i < account.len() ==> {
            let job = (#[trigger] account[i]).0;
            &&& job.parent == all[i].0
            &&& job.snapshot == all[i].1
            &&& comes_from(all, start, account, i, job)
            &&& is_written(job, part_for(talk, i), account[i].1)
        }
}

/// Where an addition to files starts: at the path of the instance that is added to, or at that of
/// the node that it is, from beside the project file and cleaned.
pub open spec fn starts_at(meta: MetaView) -> Seq<char> {
    match meta.source.inner {
        KindView::Path(path) => path,
        KindView::Project(_, path, node, _) => cleaned(with_name(path, node.path->0)),
        KindView::Nowhere => Seq::empty(),
    }
}

/// The first new instance of an addition, with the properties that the client means.
pub open spec fn first_job(snapshot: SnapshotView, parent: Ref, tree: TreeView) -> JobView {
    JobView {
        parent,
        path: starts_at(tree[parent].meta),
        meta: tree[parent].meta,
        snapshot: SnapshotView { properties: validated(snapshot.properties), ..snapshot },
    }
}

/// The order in which jobs are done.
spec fn order(jobs: Seq<JobView>) -> Seq<(Ref, SnapshotView)>
    decreases jobs.len(),
{
    if jobs.len() == 0 {
        Seq::empty()
    } else {
        in_order(seq![jobs.last().snapshot], jobs.last().parent) + order(jobs.drop_last())
    }
}

proof fn lemma_one_in_order(snapshot: SnapshotView, parent: Ref)
    ensures
        in_order(seq![snapshot], parent) == seq![(parent, snapshot)] + in_order(
            snapshot.children,
            snapshot.id,
        ),
{
    let list = seq![snapshot];
    assert(list.skip(1).len() == 0);
    assert(in_order(list.skip(1), parent) =~= Seq::empty());
    assert(in_order(list, parent) =~= seq![(parent, snapshot)] + in_order(
        snapshot.children,
        snapshot.id,
    ));
}

proof fn lemma_order_joined(a: Seq<JobView>, b: Seq<JobView>)
    ensures
        order(a + b) == order(b) + order(a),
    decreases b.len(),
{
    if b.len() == 0 {
        assert(a + b =~= a);
        assert(order(b) + order(a) =~= order(a));
    } else {
        let all = a + b;
        assert(all.drop_last() =~= a + b.drop_last());
        assert(all.last() == b.last());
        lemma_order_joined(a, b.drop_last());
        assert(order(all) =~= order(b) + order(a));
    }
}

/// Jobs for a list, the first of them last.
spec fn jobs_for(list: Seq<SnapshotView>, id: Ref, placed: PlacedView) -> Seq<JobView> {
    Seq::new(
        list.len(),
        |i: int|
            JobView {
                parent: id,
                path: placed.path,
                meta: placed.meta,
                snapshot: list[list.len() - 1 - i],
            },
    )
}

proof fn lemma_order_below(list: Seq<SnapshotView>, id: Ref, placed: PlacedView)
    ensures
        order(jobs_for(list, id, placed)) == in_order(list, id),
    decreases list.len(),
{
    let jobs = jobs_for(list, id, placed);
    if list.len() > 0 {
        let rest = list.skip(1);
        lemma_order_below(rest, id, placed);
        assert(jobs.drop_last() =~= jobs_for(rest, id, placed));
        assert(jobs.last().snapshot == list[0]);
        lemma_one_in_order(list[0], id);
        assert(order(jobs) =~= in_order(list, id));
    }
}

/// The last of the jobs is done first.
proof fn lemma_order_first(jobs: Seq<JobView>)
    requires
        jobs.len() > 0,
    ensures
        order(jobs).len() > 0,
        order(jobs)[0] == (jobs.last().parent, jobs.last().snapshot),
{
    lemma_one_in_order(jobs.last().snapshot, jobs.last().parent);
}

/// When a job is done, what is left is all but its own snapshot.
proof fn lemma_order_left(jobs: Seq<JobView>, placed: PlacedView)
    requires
        jobs.len() > 0,
    ensures
        order(jobs).len() > 0,
        order(jobs)[0] == (jobs.last().parent, jobs.last().snapshot),
        order(jobs.drop_last() + jobs_below(jobs.last().snapshot, placed)) == order(jobs).skip(1),
{
    let job = jobs.last();
    let below = jobs_below(job.snapshot, placed);
    lemma_one_in_order(job.snapshot, job.parent);
    lemma_order_joined(jobs.drop_last(), below);
    assert(below =~= jobs_for(job.snapshot.children, job.snapshot.id, placed));
    lemma_order_below(job.snapshot.children, job.snapshot.id, placed);
    assert(order(jobs)[0] == (job.parent, job.snapshot));
    assert(order(jobs).skip(1) =~= in_order(job.snapshot.children, job.snapshot.id) + order(
        jobs.drop_last(),
    ));
}

/// One more exchange belongs to the new instance that was begun last.
proof fn lemma_parts_longer(talk: Talk, exchange: (RequestView, ReplyView))
    ensures
        ({
            let more = talk.push(exchange);
            &&& count_begun(more) == count_begun(talk) + (if exchange.0 is IsFile {
                1nat
            } else {
                0nat
            })
            &&& forall|i: int|
                #[trigger] part_for(more, i) == (if i + 1 == count_begun(more) {
                    part_for(talk, i).push(exchange)
                } else {
                    part_for(talk, i)
                })
        }),
{
    let more = talk.push(exchange);
    assert(more.drop_last() =~= talk);
}

/// What was not begun has no part in a talk.
proof fn lemma_no_part(talk: Talk, i: int)
    requires
        i >= count_begun(talk),
    ensures
        part_for(talk, i).len() == 0,
    decreases talk.len(),
{
    if talk.len() > 0 {
        lemma_no_part(talk.drop_last(), i);
    }
}

/// What an addition to files has come to.
spec fn accounted(
    snapshot: SnapshotView,
    parent: Ref,
    tree: TreeView,
    talk: Talk,
    step: StepView<AdditionView>,
    account: Account,
) -> bool {
    let start = first_job(snapshot, parent, tree);
    let all = in_order(seq![start.snapshot], parent);
    let n = account.len() as int;
    &&& is_account(all, start, talk, account)
    &&& match step {
        StepView::Ask(request, addition) => {
            &&& addition.parent == parent
            &&& addition.meta == tree[parent].meta
            &&& addition.stage matches StageView::Files { source, jobs, answers } && {
                &&& jobs.len() > 0
                &&& order(jobs) == all.skip(n)
                &&& forall|k: int|
                    0 <= k < jobs.len() ==> comes_from(
                        all,
                        start,
                        account,
                        n,
                        #[trigger] jobs[k],
                    )
                &&& source == (if n > 0 {
                    Some(account[0].1.source)
                } else {
                    None
                })
                &&& count_begun(talk) == n + (if request is IsFile {
                    0int
                } else {
                    1int
                })
                &&& is_due(jobs.last(), answers, part_for(talk, n), request)
                &&& coherent(tree) && fresh(tree, ids(snapshot)) ==> noted(
                    all,
                    addition.tree,
                    account,
                )
            }
        },
        StepView::Stop(result, after, notice) => {
            &&& notice is None
            &&& result is Ok ==> {
                &&& n == all.len()
                &&& count_begun(talk) == n
                &&& after[parent].meta == meta_added_to(tree[parent].meta, account[0].1.source)
            }
            &&& coherent(tree) && fresh(tree, ids(snapshot)) ==> noted(all, after, account)
        },
    }
}

/// The tree has what is known of each new instance of an account.
pub open spec fn noted(
    all: Seq<(Ref, SnapshotView)>,
    tree: TreeView,
    account: Account,
) -> bool {
    forall|i: int|
        0 <= i < account.len() ==> tree.contains_key(all[i].1.id) && tree[all[i].1.id].meta == (
        #[trigger] account[i]).1.meta
}

/// What is known of the instance that was added to: it has the files that it got, and stays a node
/// of a project if it was one.
pub open spec fn meta_added_to(meta: MetaView, source: SourceView) -> MetaView {
    MetaView {
        source: if meta.source.inner is Project {
            SourceView { inner: meta.source.inner, relevants: source.relevants }
        } else {
            source
        },
        ..meta
    }
}

/// The talk is what a job asked and was told, and the request is what it asks next.
#[verifier::opaque]
spec fn is_due(
    job: JobView,
    answers: Seq<ReplyView>,
    talk: Talk,
    request: RequestView,
) -> bool {
    is_job_talk(job, answers, talk) && placing(job, answers) == FlowView::<PlacedView>::Ask(request)
}

proof fn lemma_job_begins(job: JobView, talk: Talk)
    requires
        talk.len() == 0,
    ensures
        is_due(job, Seq::empty(), talk, RequestView::IsFile(job.path)),
{
    reveal(is_due);
}

/// What is due fits; a talk is empty only where the first request is due.
proof fn lemma_due_fits(job: JobView, answers: Seq<ReplyView>, talk: Talk, request: RequestView)
    requires
        is_due(job, answers, talk, request),
    ensures
        job_fits(job, talk, request),
        talk_fits(job, talk),
        request is IsFile <==> talk.len() == 0,
{
    reveal(is_due);
    lemma_job_talk(job, answers, talk);
    lemma_talk_fits(job, answers, talk);
}

proof fn lemma_talk_fits(job: JobView, answers: Seq<ReplyView>, talk: Talk)
    requires
        is_job_talk(job, answers, talk),
    ensures
        talk_fits(job, talk),
{
    assert forall|j: int| 0 <= j < talk.len() implies job_fits(
        job,
        talk.take(j),
        (#[trigger] talk[j]).0,
    ) by {
        let before = talk.take(j);
        assert forall|k: int| 0 <= k < before.len() implies (#[trigger] before[k]).1
            == answers.take(j)[k] && (placing(
            job,
            answers.take(j).take(k),
        ) matches FlowView::Ask(asked) && asked == before[k].0) by {
            assert(before[k] == talk[k]);
            assert(answers.take(j).take(k) =~= answers.take(k));
        }
        lemma_job_talk(job, answers.take(j), before);
    }
}

/// With one more reply a job asks on, or its instance is written.
proof fn lemma_due_next(
    job: JobView,
    answers: Seq<ReplyView>,
    talk: Talk,
    request: RequestView,
    reply: ReplyView,
)
    requires
        is_due(job, answers, talk, request),
    ensures
        match placing(job, answers.push(reply)) {
            FlowView::Ask(next) => next !is IsFile && is_due(
                job,
                answers.push(reply),
                talk.push((request, reply)),
                next,
            ),
            FlowView::Done(placed) => is_written(job, talk.push((request, reply)), placed),
            FlowView::Fail(_) => true,
        },
{
    reveal(is_due);
    reveal(is_written);
    let told = answers.push(reply);
    let now = talk.push((request, reply));
    assert forall|j: int| 0 <= j < now.len() implies (#[trigger] now[j]).1 == told[j] && (placing(
        job,
        told.take(j),
    ) matches FlowView::Ask(asked) && asked == now[j].0) by {
        assert(told.take(j) =~= answers.take(j));
        if j < talk.len() {
            assert(now[j] == talk[j]);
        } else {
            assert(answers.take(j) =~= answers);
        }
    }
    lemma_job_talk(job, told, now);
    lemma_talk_fits(job, told, now);
}

/// The parts of a talk after one more exchange: that of the instance at hand is longer, the others
/// are as before.
proof fn lemma_parts_after(talk: Talk, exchange: (RequestView, ReplyView), n: int)
    requires
        count_begun(talk) == n + (if exchange.0 is IsFile {
            0int
        } else {
            1int
        }),
    ensures
        count_begun(talk.push(exchange)) == n + 1,
        part_for(talk.push(exchange), n) == part_for(talk, n).push(exchange),
        forall|i: int| i < n ==> #[trigger] part_for(talk.push(exchange), i) == part_for(talk, i),
{
    lemma_parts_longer(talk, exchange);
}

/// An account stays one with an exchange about what is not in it yet.
proof fn lemma_account_stays(
    all: Seq<(Ref, SnapshotView)>,
    start: JobView,
    talk: Talk,
    longer: Talk,
    account: Account,
)
    requires
        is_account(all, start, talk, account),
        forall|i: int| i < account.len() ==> #[trigger] part_for(longer, i) == part_for(talk, i),
    ensures
        is_account(all, start, longer, account),
{
}

/// An account with one more instance that is written.
proof fn lemma_account_grows(
    all: Seq<(Ref, SnapshotView)>,
    start: JobView,
    talk: Talk,
    account: Account,
    job: JobView,
    placed: PlacedView,
)
    requires
        is_account(all, start, talk, account),
        account.len() < all.len(),
        all[account.len() as int] == (job.parent, job.snapshot),
        comes_from(all, start, account, account.len() as int, job),
        is_written(job, part_for(talk, account.len() as int), placed),
    ensures
        is_account(all, start, talk, account.push((job, placed))),
{
    let more = account.push((job, placed));
    assert forall|i: int| 0 <= i < more.len() implies {
        let done = (#[trigger] more[i]).0;
        &&& done.parent == all[i].0
        &&& done.snapshot == all[i].1
        &&& comes_from(all, start, more, i, done)
        &&& is_written(done, part_for(talk, i), more[i].1)
    } by {
        if i < account.len() {
            assert(more[i] == account[i]);
        }
        lemma_comes_still(all, start, account, (job, placed), i, more[i].0);
    }
}

/// The jobs that are left when one is done go to where an instance of the account was put.
proof fn lemma_left_comes(
    snapshot: SnapshotView,
    parent: Ref,
    tree: TreeView,
    account: Account,
    jobs: Seq<JobView>,
    placed: PlacedView,
)
    requires
        jobs.len() > 0,
        ({
            let start = first_job(snapshot, parent, tree);
            let all = in_order(seq![start.snapshot], parent);
            let n = account.len() as int;
            &&& n < all.len()
            &&& all[n] == (jobs.last().parent, jobs.last().snapshot)
            &&& order(jobs) == all.skip(n)
            &&& forall|k: int|
                0 <= k < jobs.len() ==> comes_from(all, start, account, n, #[trigger] jobs[k])
        }),
    ensures
        ({
            let start = first_job(snapshot, parent, tree);
            let all = in_order(seq![start.snapshot], parent);
            let rest = jobs.drop_last() + jobs_below(jobs.last().snapshot, placed);
            forall|k: int|
                0 <= k < rest.len() ==> comes_from(
                    all,
                    start,
                    account.push((jobs.last(), placed)),
                    account.len() as int + 1,
                    #[trigger] rest[k],
                )
        }),
{
    let start = first_job(snapshot, parent, tree);
    let all = in_order(seq![start.snapshot], parent);
    let n = account.len() as int;
    let job = jobs.last();
    let more = account.push((job, placed));
    let below = jobs_below(job.snapshot, placed);
    let rest = jobs.drop_last() + below;
    if jobs.len() > 1 {
        assert(n == 0 ==> forall|k: int| 0 <= k < jobs.len() ==> #[trigger] jobs[k] == start);
        lemma_only_start(snapshot, parent, tree, jobs, n);
    }
    assert forall|k: int| 0 <= k < rest.len() implies comes_from(
        all,
        start,
        more,
        n + 1,
        #[trigger] rest[k],
    ) by {
        if k < jobs.len() - 1 {
            assert(rest[k] == jobs[k]);
            lemma_comes_later(all, start, account, (job, placed), n, rest[k]);
        } else {
            let b = k - (jobs.len() - 1);
            assert(rest[k] == below[b]);
            let c = job.snapshot.children.len() - 1 - b;
            assert(job.snapshot.children[c] == rest[k].snapshot);
            assert(more[n] == (job, placed));
        }
    }
}

/// The tree with one more new instance has what is known of it too, whatever becomes known of the
/// instance that is added to.
proof fn lemma_noted_grows(
    all: Seq<(Ref, SnapshotView)>,
    tree: TreeView,
    account: Account,
    job: JobView,
    placed: PlacedView,
    parent: Ref,
)
    requires
        noted(all, tree, account),
        account.len() < all.len(),
        all[account.len() as int] == (job.parent, job.snapshot),
        !tree.contains_key(job.snapshot.id),
        tree.contains_key(job.parent),
        forall|i: int| 0 <= i < all.len() ==> (#[trigger] all[i]).1.id != parent,
    ensures
        ({
            let more = account.push((job, placed));
            let grown = inserted(
                tree,
                SnapshotView { meta: placed.meta, ..job.snapshot },
                job.parent,
            );
            &&& noted(all, grown, more)
            &&& forall|instance: InstanceView|
                noted(all, #[trigger] grown.insert(parent, instance), more)
        }),
{
    let more = account.push((job, placed));
    let grown = inserted(tree, SnapshotView { meta: placed.meta, ..job.snapshot }, job.parent);
    assert forall|i: int| 0 <= i < more.len() implies grown.contains_key(all[i].1.id)
        && grown[all[i].1.id].meta == (#[trigger] more[i]).1.meta by {
        if i < account.len() {
            assert(more[i] == account[i]);
        }
    }
    assert forall|instance: InstanceView| noted(
        all,
        #[trigger] grown.insert(parent, instance),
        more,
    ) by {
        assert forall|i: int| 0 <= i < more.len() implies grown.insert(
            parent,
            instance,
        ).contains_key(all[i].1.id) && grown.insert(parent, instance)[all[i].1.id].meta == (
        #[trigger] more[i]).1.meta by {
            assert(all[i].1.id != parent);
        }
    }
}

/// A job that is done is accounted for.
#[verifier::spinoff_prover]
#[verifier::rlimit(30)]
proof fn lemma_job_accounted(
    snapshot: SnapshotView,
    parent: Ref,
    tree: TreeView,
    talk: Talk,
    addition: AdditionView,
    account: Account,
    placed: PlacedView,
) -> (more: Account)
    requires
        tree.contains_key(parent),
        under_way(tree, parent, ids(snapshot), addition),
        addition.parent == parent,
        addition.meta == tree[parent].meta,
        addition.stage is Files,
        ({
            let start = first_job(snapshot, parent, tree);
            let all = in_order(seq![start.snapshot], parent);
            let n = account.len() as int;
            let jobs = addition.stage->jobs;
            &&& is_account(all, start, talk, account)
            &&& jobs.len() > 0
            &&& order(jobs) == all.skip(n)
            &&& forall|k: int|
                0 <= k < jobs.len() ==> comes_from(all, start, account, n, #[trigger] jobs[k])
            &&& addition.stage->source == (if n > 0 {
                Some(account[0].1.source)
            } else {
                None
            })
            &&& count_begun(talk) == n + 1
            &&& is_written(jobs.last(), part_for(talk, n), placed)
            &&& coherent(tree) && fresh(tree, ids(snapshot)) ==> noted(
                all,
                addition.tree,
                account,
            )
        }),
    ensures
        accounted(
            snapshot,
            parent,
            tree,
            talk,
            job_done(addition, addition.stage->source, addition.stage->jobs, placed),
            more,
        ),
{
    let start = first_job(snapshot, parent, tree);
    let all = in_order(seq![start.snapshot], parent);
    let n = account.len() as int;
    let jobs = addition.stage->jobs;
    let job = jobs.last();
    let more = account.push((job, placed));
    lemma_order_left(jobs, placed);
    assert(n < all.len());
    assert(all.skip(n)[0] == all[n]);
    assert(all.skip(n).skip(1) =~= all.skip(n + 1));
    assert(jobs[jobs.len() - 1] == job);
    lemma_account_grows(all, start, talk, account, job, placed);
    lemma_left_comes(snapshot, parent, tree, account, jobs, placed);
    let rest = jobs.drop_last() + jobs_below(job.snapshot, placed);
    if coherent(tree) && fresh(tree, ids(snapshot)) {
        lemma_ids_left(jobs, placed);
        assert(waiting(addition.stage).count(job.snapshot.id) > 0);
        lemma_parent_not_new(snapshot, parent, tree);
        lemma_noted_grows(all, addition.tree, account, job, placed, parent);
    }
    assert(more[0] == if n > 0 {
        account[0]
    } else {
        (job, placed)
    });
    if rest.len() == 0 {
        assert(order(rest) =~= Seq::empty());
        assert(n + 1 == all.len());
        let source = more[0].1.source;
        assert(added_to(addition.meta, source) == meta_added_to(tree[parent].meta, source));
    } else {
        lemma_no_part(talk, n + 1);
        lemma_job_begins(rest.last(), part_for(talk, n + 1));
    }
    more
}

/// One more reply is accounted for.
proof fn lemma_accounted(
    snapshot: SnapshotView,
    parent: Ref,
    tree: TreeView,
    talk: Talk,
    request: RequestView,
    addition: AdditionView,
    reply: ReplyView,
    account: Account,
) -> (more: Account)
    requires
        tree.contains_key(parent),
        under_way(tree, parent, ids(snapshot), addition),
        accounted(snapshot, parent, tree, talk, StepView::Ask(request, addition), account),
    ensures
        accounted(
            snapshot,
            parent,
            tree,
            talk.push((request, reply)),
            addition_resumed(addition, reply),
            more,
        ),
{
    let start = first_job(snapshot, parent, tree);
    let all = in_order(seq![start.snapshot], parent);
    let n = account.len() as int;
    let longer = talk.push((request, reply));
    match addition.stage {
        StageView::Files { source, jobs, answers } => {
            let job = jobs.last();
            lemma_parts_after(talk, (request, reply), n);
            lemma_account_stays(all, start, talk, longer, account);
            lemma_due_next(job, answers, part_for(talk, n), request, reply);
            match placing(job, answers.push(reply)) {
                FlowView::Done(placed) => lemma_job_accounted(
                    snapshot,
                    parent,
                    tree,
                    longer,
                    addition,
                    account,
                    placed,
                ),
                _ => account,
            }
        },
        _ => account,
    }
}

proof fn lemma_comes_still(
    all: Seq<(Ref, SnapshotView)>,
    start: JobView,
    account: Account,
    last: (JobView, PlacedView),
    i: int,
    job: JobView,
)
    requires
        comes_from(all, start, account, i, job),
    ensures
        comes_from(all, start, account.push(last), i, job),
{
    if i > 0 {
        let p = choose|p: int|
            #![trigger account[p]]
            0 <= p < i && p < account.len() && all[p].1.id == job.parent
                && all[p].1.children.contains(job.snapshot) && job.path == account[p].1.path
                && job.meta == account[p].1.meta;
        assert(account.push(last)[p] == account[p]);
    }
}

proof fn lemma_comes_later(
    all: Seq<(Ref, SnapshotView)>,
    start: JobView,
    account: Account,
    last: (JobView, PlacedView),
    i: int,
    job: JobView,
)
    requires
        i > 0,
        comes_from(all, start, account, i, job),
    ensures
        comes_from(all, start, account.push(last), i + 1, job),
{
    lemma_comes_still(all, start, account, last, i, job);
    let more = account.push(last);
    let p = choose|p: int|
        #![trigger more[p]]
        0 <= p < i && p < more.len() && all[p].1.id == job.parent
            && all[p].1.children.contains(job.snapshot) && job.path == more[p].1.path && job.meta
            == more[p].1.meta;
    assert(more[p] == more[p]);
}

/// At the start there is one job.
proof fn lemma_only_start(
    snapshot: SnapshotView,
    parent: Ref,
    tree: TreeView,
    jobs: Seq<JobView>,
    n: int,
)
    requires
        jobs.len() > 1,
        0 <= n,
        order(jobs) == in_order(seq![first_job(snapshot, parent, tree).snapshot], parent).skip(n),
        n == 0 ==> forall|k: int|
            0 <= k < jobs.len() ==> #[trigger] jobs[k] == first_job(snapshot, parent, tree),
    ensures
        n > 0,
{
    if n == 0 {
        let start = first_job(snapshot, parent, tree);
        let all = in_order(seq![start.snapshot], parent);
        assert(jobs[jobs.len() - 1] == start);
        assert(all.skip(0) =~= all);
        assert(order(jobs) == all + order(jobs.drop_last()));
        let rest = jobs.drop_last();
        assert(rest.last() == jobs[jobs.len() - 2]);
        lemma_one_in_order(start.snapshot, parent);
        assert(order(rest).len() > 0);
        assert(order(jobs).len() == all.len() + order(rest).len());
    }
}

/// The instance that is added to is none of the new ones, where those are new.
proof fn lemma_parent_not_new(
    snapshot: SnapshotView,
    parent: Ref,
    tree: TreeView,
)
    requires
        tree.contains_key(parent),
        fresh(tree, ids(snapshot)),
    ensures
        ({
            let all = in_order(seq![first_job(snapshot, parent, tree).snapshot], parent);
            forall|i: int| 0 <= i < all.len() ==> (#[trigger] all[i]).1.id != parent
        }),
{
    let given = first_job(snapshot, parent, tree).snapshot;
    let all = in_order(seq![given], parent);
    lemma_ids_in_order(seq![given], parent);
    lemma_same_ids(snapshot, given);
    assert forall|i: int| 0 <= i < all.len() implies (#[trigger] all[i]).1.id != parent by {
        assert(ids(snapshot).count(all[i].1.id) > 0);
    }
}

proof fn lemma_same_ids(a: SnapshotView, b: SnapshotView)
    requires
        a.id == b.id,
        a.children == b.children,
    ensures
        ids(a) == ids(b),
{
    let x = seq![a];
    let y = seq![b];
    assert(x.drop_last() =~= y.drop_last());
    assert(x.last() == a && y.last() == b);
}

/// Every snapshot in order has one of the identities.
proof fn lemma_ids_in_order(list: Seq<SnapshotView>, parent: Ref)
    ensures
        forall|i: int|
            0 <= i < in_order(list, parent).len() ==> ids_of(list).count(
                (#[trigger] in_order(list, parent)[i]).1.id,
            ) > 0,
    decreases list,
{
    if list.len() > 0 {
        let first = list[0];
        let rest = list.skip(1);
        lemma_ids_in_order(first.children, first.id);
        lemma_ids_in_order(rest, parent);
        assert(list =~= seq![first] + rest);
        lemma_ids_joined(seq![first], rest);
        lemma_ids(first);
        let a = in_order(first.children, first.id);
        let b = in_order(rest, parent);
        let all = in_order(list, parent);
        assert forall|i: int| 0 <= i < all.len() implies ids_of(list).count(
            (#[trigger] all[i]).1.id,
        ) > 0 by {
            if i == 0 {
                assert(all[i] == (parent, first));
            } else if i < 1 + a.len() {
                assert(all[i] == a[i - 1]);
            } else {
                assert(all[i] == b[i - 1 - a.len()]);
            }
        }
    }
}

/// Every addition to files is accounted for.
proof fn lemma_account(
    snapshot: SnapshotView,
    parent: Ref,
    tree: TreeView,
    replies: Seq<ReplyView>,
) -> (account: Account)
    requires
        tree.contains_key(parent),
        !(tree[parent].meta.source.inner is Nowhere),
        !is_flat(tree[parent].meta),
    ensures
        ({
            let started = addition_started(snapshot, parent, tree);
            &&& accounted(
                snapshot,
                parent,
                tree,
                addition_talk(started, replies),
                addition_run(started, replies),
                account,
            )
            &&& sound(tree, parent, ids(snapshot), addition_run(started, replies))
        }),
    decreases replies.len(),
{
    let started = addition_started(snapshot, parent, tree);
    if replies.len() == 0 {
        let start = first_job(snapshot, parent, tree);
        let all = in_order(seq![start.snapshot], parent);
        let jobs = seq![start];
        let talk = addition_talk(started, replies);
        lemma_started(snapshot, parent, tree);
        assert(jobs.drop_last().len() == 0);
        assert(order(jobs.drop_last()) =~= Seq::empty());
        assert(order(jobs) =~= all);
        assert(all.skip(0) =~= all);
        lemma_no_part(talk, 0);
        lemma_job_begins(start, part_for(talk, 0));
        Seq::empty()
    } else {
        let account = lemma_account(snapshot, parent, tree, replies.drop_last());
        lemma_last_reply(started, replies);
        match addition_run(started, replies.drop_last()) {
            StepView::Ask(request, addition) => {
                lemma_resumed(tree, parent, ids(snapshot), addition, replies.last());
                lemma_accounted(
                    snapshot,
                    parent,
                    tree,
                    addition_talk(started, replies.drop_last()),
                    request,
                    addition,
                    replies.last(),
                    account,
                )
            },
            _ => account,
        }
    }
}

/// An addition to files gives the new instances their files one after the other, each before what
/// is below it. Each goes to where the instance that it is below was put. Each request is the one
/// that is due for the instance at hand after what was asked and told about it before: its file
/// gets exactly its properties, and its data file exactly those that the file left over, or all of
/// them, where its class has no kind of file. When the addition succeeds, this was done for all of
/// them, and what is known of each is what it came to.
pub proof fn addition_to_files_writes_all_in_order(
    snapshot: SnapshotView,
    parent: Ref,
    tree: TreeView,
    replies: Seq<ReplyView>,
) -> (account: Account)
    requires
        tree.contains_key(parent),
        !(tree[parent].meta.source.inner is Nowhere),
        !is_flat(tree[parent].meta),
    ensures
        ({
            let started = addition_started(snapshot, parent, tree);
            let talk = addition_talk(started, replies);
            let start = first_job(snapshot, parent, tree);
            let all = in_order(seq![start.snapshot], parent);
            let n = account.len() as int;
            &&& is_account(all, start, talk, account)
            &&& coherent(tree) && fresh(tree, ids(snapshot)) ==> noted(
                all,
                addition_tree(addition_run(started, replies)),
                account,
            )
            &&& match addition_run(started, replies) {
                StepView::Ask(request, _) => {
                    &&& n < all.len()
                    &&& count_begun(talk) == n + (if request is IsFile {
                        0int
                    } else {
                        1int
                    })
                    &&& exists|job: JobView| #[trigger]
                        comes_from(all, start, account, n, job) && (job.parent, job.snapshot)
                            == all[n] && talk_fits(job, part_for(talk, n)) && job_fits(
                            job,
                            part_for(talk, n),
                            request,
                        )
                },
                StepView::Stop(result, after, notice) => {
                    &&& notice is None
                    &&& result is Ok ==> {
                        &&& n == all.len()
                        &&& count_begun(talk) == n
                        &&& after[parent].meta == meta_added_to(
                            tree[parent].meta,
                            account[0].1.source,
                        )
                    }
                },
            }
        }),
{
    let started = addition_started(snapshot, parent, tree);
    let talk = addition_talk(started, replies);
    let start = first_job(snapshot, parent, tree);
    let all = in_order(seq![start.snapshot], parent);
    let account = lemma_account(snapshot, parent, tree, replies);
    let n = account.len() as int;
    match addition_run(started, replies) {
        StepView::Ask(request, addition) => {
            let jobs = addition.stage->jobs;
            let job = jobs.last();
            lemma_order_first(jobs);
            assert(all.skip(n)[0] == all[n]);
            lemma_due_fits(job, addition.stage->answers, part_for(talk, n), request);
            assert(jobs[jobs.len() - 1] == job);
            assert(comes_from(all, start, account, n, job));
        },
        _ => {},
    }
    account
}

/// The exchanges wrote all properties of a new instance: to its file, and what the file left over
/// to a data file, or to a data file alone, where its class has no kind of file.
pub open spec fn holds_properties(part: Talk, snapshot: SnapshotView) -> bool {
    exists|at: int|
        #![trigger part[at]]
        0 <= at < part.len() && part[at].0 == RequestView::Middleware(snapshot.class)
            && match part[at].1 {
            ReplyView::Kind(Some(kind)) => {
                &&& at + 2 < part.len()
                &&& part[at + 2].0 matches RequestView::Write { middleware, properties, .. }
                    && middleware == kind && properties == snapshot.properties
                &&& part[at + 2].1 matches ReplyView::Rest(rest) && (rest.dom() != Set::<
                    Seq<char>,
                >::empty() ==> (part.last().0 matches RequestView::WriteData {
                    has_file,
                    class,
                    properties,
                    ..
                } && has_file && class == snapshot.class && properties == rest))
            },
            ReplyView::Kind(None) => part.last().0 matches RequestView::WriteData {
                has_file,
                class,
                properties,
                ..
            } && !has_file && class == snapshot.class && properties == snapshot.properties,
            _ => false,
        }
}

/// When an addition to files succeeds, all properties of every new instance were written, and no
/// others: the first instance has those that the client means, every other those that were given.
pub proof fn successful_addition_writes_all_properties(
    snapshot: SnapshotView,
    parent: Ref,
    tree: TreeView,
    replies: Seq<ReplyView>,
    i: int,
)
    requires
        tree.contains_key(parent),
        !(tree[parent].meta.source.inner is Nowhere),
        !is_flat(tree[parent].meta),
        0 <= i < in_order(
            seq![SnapshotView { properties: validated(snapshot.properties), ..snapshot }],
            parent,
        ).len(),
    ensures
        ({
            let started = addition_started(snapshot, parent, tree);
            let given = SnapshotView { properties: validated(snapshot.properties), ..snapshot };
            addition_run(started, replies) matches StepView::Stop(Ok(_), _, _)
                ==> holds_properties(
                part_for(addition_talk(started, replies), i),
                in_order(seq![given], parent)[i].1,
            )
        }),
{
    let started = addition_started(snapshot, parent, tree);
    let talk = addition_talk(started, replies);
    let account = addition_to_files_writes_all_in_order(snapshot, parent, tree, replies);
    match addition_run(started, replies) {
        StepView::Stop(Ok(_), _, _) => {
            assert(account[i] == account[i]);
            lemma_holds_properties(account[i].0, part_for(talk, i), account[i].1);
        },
        _ => {},
    }
}

proof fn lemma_holds_properties(job: JobView, part: Talk, placed: PlacedView)
    requires
        is_written(job, part, placed),
    ensures
        holds_properties(part, job.snapshot),
{
    reveal(is_written);
    let at = count_ready(job, part);
    let last = part.len() - 1;
    assert(job_fits(job, part.take(last), part[last].0));
    assert(part[at].0 is Middleware);
    assert(part.take(last)[0] == part[0]);
    assert(count_ready(job, part.take(last)) == at);
    match part[at].1 {
        ReplyView::Kind(Some(_)) => {
            assert(job_fits(job, part.take(at + 2), part[at + 2].0));
            assert(part.take(at + 2)[0] == part[0]);
            assert(part.take(at + 2)[at] == part[at]);
            let rest = part[at + 2].1->Rest_0;
            if rest.dom() != Set::<Seq<char>>::empty() {
                assert(rest != Map::<Seq<char>, Variant>::empty());
                assert(part.take(last)[at + 2] == part[at + 2]);
            }
        },
        _ => {},
    }
}

/// An addition to files fails with any reply that is no answer, and with an answer only where it
/// leaves the instance at hand without a rule or a place.
pub proof fn addition_to_files_heeds_replies(
    snapshot: SnapshotView,
    parent: Ref,
    tree: TreeView,
    replies: Seq<ReplyView>,
    reply: ReplyView,
)
    requires
        tree.contains_key(parent),
        !(tree[parent].meta.source.inner is Nowhere),
        !is_flat(tree[parent].meta),
    ensures
        ({
            let started = addition_started(snapshot, parent, tree);
            let talk = addition_talk(started, replies);
            let next = addition_run(started, replies.push(reply));
            addition_run(started, replies) matches StepView::Ask(request, addition) ==> {
                &&& step_heeds(request, next, reply)
                &&& next matches StepView::Stop(Err(error), after, _) ==> after == addition.tree
                    && (is_answer(request, reply) ==> talk.len() > 0 && finds_nothing(
                    talk.last().1,
                    request,
                    reply,
                    error,
                ))
            }
        }),
{
    let started = addition_started(snapshot, parent, tree);
    let talk = addition_talk(started, replies);
    let account = lemma_account(snapshot, parent, tree, replies);
    let n = account.len() as int;
    lemma_last_reply(started, replies.push(reply));
    assert(replies.push(reply).drop_last() =~= replies);
    match addition_run(started, replies) {
        StepView::Ask(request, addition) => {
            let job = addition.stage->jobs.last();
            let answers = addition.stage->answers;
            let part = part_for(talk, n);
            lemma_job_heeds(job, answers, reply);
            reveal(is_due);
            lemma_job_talk(job, answers, part);
            if !(request is IsFile) {
                lemma_last_part(talk, n);
                assert(part[part.len() - 1].1 == answers[part.len() - 1]);
            }
        },
        _ => {},
    }
}

/// The last exchange is about the new instance that was begun last.
proof fn lemma_last_part(talk: Talk, i: int)
    requires
        count_begun(talk) == i + 1,
        i >= 0,
    ensures
        talk.len() > 0,
        part_for(talk, i).last() == talk.last(),
        part_for(talk, i).len() > 0,
{
}

} // verus!
