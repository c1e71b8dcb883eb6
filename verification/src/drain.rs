//! The bounded window of notifications that were sent and not yet acknowledged.

use std::collections::VecDeque;
use vstd::prelude::*;

verus! {

/// How many notifications may wait for their acknowledgement during a replay.
/// Without a bound, a client that applies them one by one piles up those of a
/// whole session.
pub const REPLAY_COMPLETION_WINDOW: usize = 64;

/// A sliding window of receivers, one for the acknowledgement of each
/// notification that was sent. When it is full, the oldest is awaited before
/// the next enters, so that at most [`REPLAY_COMPLETION_WINDOW`] wait.
///
/// One receiver enters in two steps: the caller awaits what [`make_room`] hands
/// out, and then has [`push`] take the new one.
///
/// [`make_room`]: ReplayCompletionDrain::make_room
/// [`push`]: ReplayCompletionDrain::push
#[derive(Debug)]
pub struct ReplayCompletionDrain<R> {
    pending: VecDeque<R>,
    forwarded: usize,
}

/// The window after its oldest receiver has left, if it was full.
pub open spec fn with_room<R>(pending: Seq<R>) -> Seq<R> {
    if pending.len() >= REPLAY_COMPLETION_WINDOW {
        pending.drop_first()
    } else {
        pending
    }
}

/// The receivers that are in the window after those of `sent` entered an empty
/// one, in order.
pub open spec fn waiting_after<R>(sent: Seq<R>) -> Seq<R>
    decreases sent.len(),
{
    if sent.len() == 0 {
        seq![]
    } else {
        with_room(waiting_after(sent.drop_last())).push(sent.last())
    }
}

/// The receivers that were awaited while those of `sent` entered an empty
/// window, in the order of awaiting.
pub open spec fn awaited_during<R>(sent: Seq<R>) -> Seq<R>
    decreases sent.len(),
{
    if sent.len() == 0 {
        seq![]
    } else {
        let waiting = waiting_after(sent.drop_last());
        if waiting.len() >= REPLAY_COMPLETION_WINDOW {
            awaited_during(sent.drop_last()).push(waiting.first())
        } else {
            awaited_during(sent.drop_last())
        }
    }
}

impl<R> ReplayCompletionDrain<R> {
    #[verifier::type_invariant]
    spec fn bounded(self) -> bool {
        self.pending@.len() <= REPLAY_COMPLETION_WINDOW
    }

    /// The receivers in the window, the oldest first.
    pub closed spec fn pending(self) -> Seq<R> {
        self.pending@
    }

    /// How many receivers have entered the window.
    pub closed spec fn count(self) -> usize {
        self.forwarded
    }

    /// An empty window.
    pub fn new() -> (drain: ReplayCompletionDrain<R>)
        ensures
            drain.pending() == Seq::<R>::empty(),
            drain.count() == 0,
    {
        ReplayCompletionDrain {
            pending: VecDeque::with_capacity(REPLAY_COMPLETION_WINDOW),
            forwarded: 0,
        }
    }

    /// Makes room for one more receiver: where the window is full, hands out the
    /// oldest, which is to be awaited before the next enters.
    pub fn make_room(&mut self) -> (oldest: Option<R>)
        ensures
            old(self).pending().len() <= REPLAY_COMPLETION_WINDOW,
            oldest is Some <==> old(self).pending().len() == REPLAY_COMPLETION_WINDOW,
            oldest matches Some(rx) ==> rx == old(self).pending()[0],
            final(self).pending() == with_room(old(self).pending()),
            final(self).pending().len() < REPLAY_COMPLETION_WINDOW,
            final(self).count() == old(self).count(),
    {
        proof {
            use_type_invariant(&*self);
        }
        if self.pending.len() < REPLAY_COMPLETION_WINDOW {
            return None;
        }
        let mut pending: VecDeque<R> = VecDeque::new();
        std::mem::swap(&mut pending, &mut self.pending);
        let oldest = pending.pop_front();
        self.pending = pending;
        oldest
    }

    /// Takes a receiver into the window, as the newest, and counts it.
    pub fn push(&mut self, rx: R)
        requires
            old(self).pending().len() < REPLAY_COMPLETION_WINDOW,
            old(self).count() < usize::MAX,
        ensures
            final(self).pending() == old(self).pending().push(rx),
            final(self).count() == old(self).count() + 1,
    {
        let mut pending: VecDeque<R> = VecDeque::new();
        std::mem::swap(&mut pending, &mut self.pending);
        pending.push_back(rx);
        self.pending = pending;
        self.forwarded = self.forwarded + 1;
    }

    /// How many receivers have entered the window.
    pub fn forwarded(&self) -> (count: usize)
        ensures
            count == self.count(),
    {
        self.forwarded
    }

    /// Hands out the receivers that are left, in the order in which they are to
    /// be awaited.
    pub fn drain_all(&mut self) -> (rest: VecDeque<R>)
        ensures
            rest@ == old(self).pending(),
            final(self).pending() == Seq::<R>::empty(),
            final(self).count() == old(self).count(),
    {
        let mut rest: VecDeque<R> = VecDeque::new();
        std::mem::swap(&mut rest, &mut self.pending);
        rest
    }
}

/// However many receivers enter the window, it holds the last of them, no more
/// than [`REPLAY_COMPLETION_WINDOW`]; and the others were awaited, the oldest
/// first. So each is awaited once, in the order of sending, if what is left in
/// the end is awaited too.
pub proof fn window_is_bounded_and_first_in_first_out<R>(sent: Seq<R>)
    ensures
        waiting_after(sent).len() <= REPLAY_COMPLETION_WINDOW,
        sent.len() <= REPLAY_COMPLETION_WINDOW ==> waiting_after(sent) == sent,
        sent.len() > REPLAY_COMPLETION_WINDOW ==> waiting_after(sent).len()
            == REPLAY_COMPLETION_WINDOW,
        awaited_during(sent) + waiting_after(sent) == sent,
    decreases sent.len(),
{
    if sent.len() > 0 {
        let front = sent.drop_last();
        window_is_bounded_and_first_in_first_out(front);
        let waiting = waiting_after(front);
        assert(sent =~= front.push(sent.last()));
        assert(awaited_during(sent) + waiting_after(sent) =~= (awaited_during(front) + waiting).push(
            sent.last(),
        ));
        assert(sent.len() <= REPLAY_COMPLETION_WINDOW ==> awaited_during(sent).len() == 0);
        assert(sent.len() <= REPLAY_COMPLETION_WINDOW ==> waiting_after(sent) =~= sent);
    } else {
        assert(awaited_during(sent) + waiting_after(sent) =~= sent);
        assert(waiting_after(sent) =~= sent);
    }
}

} // verus!
