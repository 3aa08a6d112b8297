//! What happens over a run of a machine: a state that waits for something, and
//! replies that carry it from one state to the next.

use vstd::prelude::*;

verus! {

/// The state after `replies`.
pub open spec fn after<S, R>(start: S, next: spec_fn(S, R) -> S, replies: Seq<R>) -> S
    decreases replies.len(),
{
    if replies.len() == 0 {
        start
    } else {
        next(after(start, next, replies.drop_last()), replies.last())
    }
}

/// Whether `what` holds of the `i`-th reply and the state that it was given to.
pub open spec fn happened_at<S, R>(
    start: S,
    next: spec_fn(S, R) -> S,
    replies: Seq<R>,
    what: spec_fn(S, R) -> bool,
    i: int,
) -> bool {
    0 <= i < replies.len() && what(after(start, next, replies.take(i)), replies[i])
}

/// Whether it happened, in the course of `replies`, that a state was given a
/// reply of which `what` holds.
pub open spec fn happened<S, R>(
    start: S,
    next: spec_fn(S, R) -> S,
    replies: Seq<R>,
    what: spec_fn(S, R) -> bool,
) -> bool {
    exists|i: int| #[trigger] happened_at(start, next, replies, what, i)
}

/// What happened before the last reply happened, and so did what the last reply
/// brought.
pub proof fn lemma_happened<S, R>(
    start: S,
    next: spec_fn(S, R) -> S,
    replies: Seq<R>,
    what: spec_fn(S, R) -> bool,
)
    requires
        replies.len() > 0,
    ensures
        happened(start, next, replies.drop_last(), what) || what(
            after(start, next, replies.drop_last()),
            replies.last(),
        ) ==> happened(start, next, replies, what),
{
    let before = replies.drop_last();
    if happened(start, next, before, what) {
        let i = choose|i: int| #[trigger] happened_at(start, next, before, what, i);
        assert(before.take(i) == replies.take(i));
        assert(before[i] == replies[i]);
        assert(happened_at(start, next, replies, what, i));
    } else if what(after(start, next, before), replies.last()) {
        assert(replies.take(replies.len() - 1) == before);
        assert(happened_at(start, next, replies, what, replies.len() - 1));
    }
}

/// What happened, happened before the last reply or by it.
pub proof fn lemma_happened_lately<S, R>(
    start: S,
    next: spec_fn(S, R) -> S,
    replies: Seq<R>,
    what: spec_fn(S, R) -> bool,
)
    requires
        replies.len() > 0,
    ensures
        happened(start, next, replies, what) ==> happened(start, next, replies.drop_last(), what)
            || what(after(start, next, replies.drop_last()), replies.last()),
{
    let before = replies.drop_last();
    if happened(start, next, replies, what) {
        let i = choose|i: int| #[trigger] happened_at(start, next, replies, what, i);
        if i < before.len() {
            assert(before.take(i) == replies.take(i));
            assert(happened_at(start, next, before, what, i));
        } else {
            assert(replies.take(i) == before);
        }
    }
}

/// Nothing happens without a reply.
pub proof fn lemma_nothing_happened<S, R>(
    start: S,
    next: spec_fn(S, R) -> S,
    replies: Seq<R>,
    what: spec_fn(S, R) -> bool,
)
    requires
        replies.len() == 0,
    ensures
        !happened(start, next, replies, what),
{
}

} // verus!
