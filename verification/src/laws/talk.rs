//! What an operation asked and was told, in order.
use crate::exchange::{ReplyView, RequestView, StepView};
use crate::laws::addition::addition_run;
use crate::laws::removal::removal_run;
use crate::laws::update::update_run;
use crate::write::addition::{addition_resumed, AdditionView};
use crate::write::removal::{removal_resumed, removal_step, RemovalView};
use crate::write::update::{update_resumed, update_step, UpdateView};
use vstd::prelude::*;

verus! {

/// Requests with their replies, in order.
pub type Talk = Seq<(RequestView, ReplyView)>;

/// What an addition asks and is told from a step on. What comes after it has stopped is not heard.
pub open spec fn addition_talk(step: StepView<AdditionView>, replies: Seq<ReplyView>) -> Talk
    decreases replies.len(),
{
    match step {
        StepView::Ask(request, addition) if replies.len() > 0 => seq![(request, replies[0])]
            + addition_talk(addition_resumed(addition, replies[0]), replies.skip(1)),
        _ => Seq::empty(),
    }
}

/// What an update asks and is told from a step on. What comes after it has stopped is not heard.
pub open spec fn update_talk(step: StepView<UpdateView>, replies: Seq<ReplyView>) -> Talk
    decreases replies.len(),
{
    match step {
        StepView::Ask(request, update) if replies.len() > 0 => seq![(request, replies[0])]
            + update_talk(update_resumed(update, replies[0]), replies.skip(1)),
        _ => Seq::empty(),
    }
}

/// What a removal asks and is told from a step on. What comes after it has stopped is not heard.
pub open spec fn removal_talk(step: StepView<RemovalView>, replies: Seq<ReplyView>) -> Talk
    decreases replies.len(),
{
    match step {
        StepView::Ask(request, removal) if replies.len() > 0 => seq![(request, replies[0])]
            + removal_talk(removal_resumed(removal, replies[0]), replies.skip(1)),
        _ => Seq::empty(),
    }
}

/// The last reply takes an addition that still asked one step further, and no other.
pub(crate) proof fn lemma_last_reply(step: StepView<AdditionView>, replies: Seq<ReplyView>)
    requires
        replies.len() > 0,
    ensures
        ({
            let before = addition_run(step, replies.drop_last());
            match before {
                StepView::Ask(request, addition) => {
                    &&& addition_run(step, replies) == addition_resumed(addition, replies.last())
                    &&& addition_talk(step, replies) == addition_talk(
                        step,
                        replies.drop_last(),
                    ).push((request, replies.last()))
                },
                StepView::Stop(_, _, _) => {
                    &&& addition_run(step, replies) == before
                    &&& addition_talk(step, replies) == addition_talk(step, replies.drop_last())
                },
            }
        }),
    decreases replies.len(),
{
    match step {
        StepView::Ask(request, addition) => {
            let next = addition_resumed(addition, replies[0]);
            let rest = replies.skip(1);
            if replies.len() == 1 {
                assert(rest.len() == 0);
                assert(replies.drop_last().len() == 0);
                assert(addition_talk(next, rest) =~= Seq::empty());
                assert(addition_talk(step, replies.drop_last()) =~= Seq::empty());
                assert(addition_run(next, rest) == next);
                assert(addition_talk(step, replies) =~= Seq::empty().push((request, replies[0])));
            } else {
                lemma_last_reply(next, rest);
                assert(replies.drop_last().skip(1) =~= rest.drop_last());
                assert(replies.drop_last()[0] == replies[0]);
                assert(rest.last() == replies.last());
                let head = seq![(request, replies[0])];
                match addition_run(step, replies.drop_last()) {
                    StepView::Ask(asked, _) => {
                        assert(head + addition_talk(next, rest.drop_last()).push(
                            (asked, replies.last()),
                        ) =~= (head + addition_talk(next, rest.drop_last())).push(
                            (asked, replies.last()),
                        ));
                    },
                    _ => {},
                }
            }
        },
        _ => {},
    }
}

/// The update after the first `k` replies.
pub(crate) open spec fn update_after(
    update: UpdateView,
    replies: Seq<ReplyView>,
    k: int,
) -> UpdateView {
    UpdateView { answers: update.answers + replies.take(k), ..update }
}

/// What an update asks and is told is what it asks after each of the first replies.
pub(crate) proof fn lemma_update_talk(update: UpdateView, replies: Seq<ReplyView>)
    ensures
        ({
            let talk = update_talk(update_step(update), replies);
            let end = update_run(update_step(update), replies);
            &&& talk.len() <= replies.len()
            &&& end is Ask ==> talk.len() == replies.len()
            &&& end == update_step(update_after(update, replies, talk.len() as int))
            &&& forall|k: int|
                0 <= k < talk.len() ==> (#[trigger] talk[k]).1 == replies[k] && (update_step(
                    update_after(update, replies, k),
                ) matches StepView::Ask(request, _) && request == talk[k].0)
        }),
    decreases replies.len(),
{
    let talk = update_talk(update_step(update), replies);
    assert(update.answers + replies.take(0) =~= update.answers);
    match update_step(update) {
        StepView::Ask(request, _) if replies.len() > 0 => {
            let next = UpdateView { answers: update.answers.push(replies[0]), ..update };
            let rest = replies.skip(1);
            lemma_update_talk(next, rest);
            let more = update_talk(update_step(next), rest);
            assert forall|k: int| 1 <= k <= replies.len() implies #[trigger] update_after(
                update,
                replies,
                k,
            ) == update_after(next, rest, k - 1) by {
                assert(update.answers + replies.take(k) =~= next.answers + rest.take(k - 1));
            }
            assert forall|k: int| 0 <= k < talk.len() implies (#[trigger] talk[k]).1 == replies[k]
                && (update_step(update_after(update, replies, k)) matches StepView::Ask(
                asked,
                _,
            ) && asked == talk[k].0) by {
                if k > 0 {
                    assert(talk[k] == more[k - 1]);
                    assert(update_after(update, replies, k) == update_after(next, rest, k - 1));
                } else {
                    assert(update_after(update, replies, 0) == update);
                }
            }
            assert(update_after(update, replies, talk.len() as int) == update_after(
                next,
                rest,
                more.len() as int,
            ));
        },
        _ => {
            assert(update_after(update, replies, 0) == update);
        },
    }
}

/// The removal after the first `k` replies.
pub(crate) open spec fn removal_after(
    removal: RemovalView,
    replies: Seq<ReplyView>,
    k: int,
) -> RemovalView {
    RemovalView { answers: removal.answers + replies.take(k), ..removal }
}

/// What a removal asks and is told is what it asks after each of the first replies.
pub(crate) proof fn lemma_removal_talk(removal: RemovalView, replies: Seq<ReplyView>)
    ensures
        ({
            let talk = removal_talk(removal_step(removal), replies);
            let end = removal_run(removal_step(removal), replies);
            &&& talk.len() <= replies.len()
            &&& end is Ask ==> talk.len() == replies.len()
            &&& end == removal_step(removal_after(removal, replies, talk.len() as int))
            &&& forall|k: int|
                0 <= k < talk.len() ==> (#[trigger] talk[k]).1 == replies[k] && (removal_step(
                    removal_after(removal, replies, k),
                ) matches StepView::Ask(request, _) && request == talk[k].0)
        }),
    decreases replies.len(),
{
    let talk = removal_talk(removal_step(removal), replies);
    assert(removal.answers + replies.take(0) =~= removal.answers);
    match removal_step(removal) {
        StepView::Ask(request, _) if replies.len() > 0 => {
            let next = RemovalView { answers: removal.answers.push(replies[0]), ..removal };
            let rest = replies.skip(1);
            lemma_removal_talk(next, rest);
            let more = removal_talk(removal_step(next), rest);
            assert forall|k: int| 1 <= k <= replies.len() implies #[trigger] removal_after(
                removal,
                replies,
                k,
            ) == removal_after(next, rest, k - 1) by {
                assert(removal.answers + replies.take(k) =~= next.answers + rest.take(k - 1));
            }
            assert forall|k: int| 0 <= k < talk.len() implies (#[trigger] talk[k]).1 == replies[k]
                && (removal_step(removal_after(removal, replies, k)) matches StepView::Ask(
                asked,
                _,
            ) && asked == talk[k].0) by {
                if k > 0 {
                    assert(talk[k] == more[k - 1]);
                    assert(removal_after(removal, replies, k) == removal_after(next, rest, k - 1));
                } else {
                    assert(removal_after(removal, replies, 0) == removal);
                }
            }
            assert(removal_after(removal, replies, talk.len() as int) == removal_after(
                next,
                rest,
                more.len() as int,
            ));
        },
        _ => {
            assert(removal_after(removal, replies, 0) == removal);
        },
    }
}

} // verus!
