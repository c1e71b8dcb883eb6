//! A replay under way, as its host runs it: what to send, and what to wait for.

use crate::drain::{ReplayCompletionDrain, REPLAY_COMPLETION_WINDOW};
use crate::forward::{Notification, NotificationView, RawLinePeek, Refit, Stamps};
use crate::json::Json;
use crate::replay::{ReplayRun, ReplayStep};
use crate::{drain, forward, replay};
use std::collections::VecDeque;
use vstd::prelude::*;

verus! {

/// What the host tells the driver.
#[derive(Debug)]
pub enum ReplayEvent<R> {
    /// The last action is done, and there is nothing to hand in.
    Ready,
    /// The notification was sent, and this receives its acknowledgement.
    Sent(R),
}

/// What the host is to do next.
#[derive(Debug)]
pub enum ReplayAction<R> {
    /// To send this, and hand in the receiver of its acknowledgement.
    Send(Notification),
    /// Nothing but to go on.
    Proceed,
    /// To wait for this receiver, which had to leave the full window.
    AwaitOldest(R),
    /// To wait for these receivers, in their order: all was sent.
    AwaitRest(VecDeque<R>),
    /// Nothing more.
    Done,
}

/// What an action says.
pub enum ActionView<R> {
    Send(NotificationView),
    Proceed,
    AwaitOldest(R),
    AwaitRest(Seq<R>),
    Done,
}

impl<R> View for ReplayAction<R> {
    type V = ActionView<R>;

    open spec fn view(&self) -> ActionView<R> {
        match self {
            ReplayAction::Send(notification) => ActionView::Send(notification@),
            ReplayAction::Proceed => ActionView::Proceed,
            ReplayAction::AwaitOldest(rx) => ActionView::AwaitOldest(*rx),
            ReplayAction::AwaitRest(rest) => ActionView::AwaitRest(rest@),
            ReplayAction::Done => ActionView::Done,
        }
    }
}

/// A replay under way: the steps that are still to be taken, the collapser that
/// all its lines share, and the window of receivers.
#[derive(Debug)]
pub struct ReplayDriver<S, R> {
    run: ReplayRun,
    collapser: S,
    drain: ReplayCompletionDrain<R>,
}

/// What a replay under way holds.
pub struct DriverView<S, R> {
    /// The steps that are still to be taken.
    pub steps: Seq<ReplayStep>,
    pub collapser: S,
    /// The receivers in the window, the oldest first.
    pub window: Seq<R>,
    /// How many receivers were handed in.
    pub forwarded: int,
}

impl<S, R> View for ReplayDriver<S, R> {
    type V = DriverView<S, R>;

    closed spec fn view(&self) -> DriverView<S, R> {
        DriverView {
            steps: self.run.steps(),
            collapser: self.collapser,
            window: self.drain.pending(),
            forwarded: self.drain.count() as int,
        }
    }
}

/// A replay of `steps` that has not started.
pub open spec fn at_start<S, R>(steps: Seq<ReplayStep>, collapser: S) -> DriverView<S, R> {
    DriverView { steps, collapser, window: seq![], forwarded: 0 }
}

/// The state and the action after a receiver was handed in: it enters the
/// window, from which the oldest had to leave if it was full.
pub open spec fn received_turn<S, R>(
    before: DriverView<S, R>,
    rx: R,
    action: ActionView<R>,
    after: DriverView<S, R>,
) -> bool {
    &&& after == DriverView {
        steps: before.steps,
        collapser: before.collapser,
        window: drain::with_room(before.window).push(rx),
        forwarded: before.forwarded + 1,
    }
    &&& action == if before.window.len() >= REPLAY_COMPLETION_WINDOW {
        ActionView::AwaitOldest(before.window[0])
    } else {
        ActionView::Proceed
    }
}

/// The state and the action after the next step was taken.
pub open spec fn step_turn<
    S,
    R,
    P: Fn(&str) -> Option<RawLinePeek>,
    F: Fn(&str) -> Refit,
    C: Fn(S, agent_client_protocol::SessionUpdate) -> (
        S,
        Option<agent_client_protocol::SessionUpdate>,
    ),
>(
    peek: P,
    refit: F,
    collapse: C,
    session_id: Seq<char>,
    marks: Stamps,
    before: DriverView<S, R>,
    action: ActionView<R>,
    after: DriverView<S, R>,
) -> bool {
    &&& after == DriverView {
        steps: before.steps.drop_first(),
        collapser: after.collapser,
        window: before.window,
        forwarded: before.forwarded,
    }
    &&& action is Send || action is Proceed
    &&& replay::step_sent(
        peek,
        refit,
        collapse,
        session_id,
        before.steps[0],
        marks,
        before.collapser,
        after.collapser,
        sent_by(action),
    )
}

/// The notification that an action sends, if it does.
pub open spec fn sent_by<R>(action: ActionView<R>) -> Option<NotificationView> {
    match action {
        ActionView::Send(notification) => Some(notification),
        _ => None,
    }
}

/// The state and the action after the last step: what is left in the window is
/// to be awaited, and then the replay is done.
pub open spec fn closing_turn<S, R>(
    before: DriverView<S, R>,
    action: ActionView<R>,
    after: DriverView<S, R>,
) -> bool {
    if before.window.len() > 0 {
        &&& action == ActionView::AwaitRest(before.window)
        &&& after == DriverView {
            steps: before.steps,
            collapser: before.collapser,
            window: Seq::<R>::empty(),
            forwarded: before.forwarded,
        }
    } else {
        &&& action is Done
        &&& after == before
    }
}

/// Whether a replay in the state `before` answers `event` with `action`, and is
/// in the state `after` then.
pub open spec fn takes_turn<
    S,
    R,
    P: Fn(&str) -> Option<RawLinePeek>,
    F: Fn(&str) -> Refit,
    C: Fn(S, agent_client_protocol::SessionUpdate) -> (
        S,
        Option<agent_client_protocol::SessionUpdate>,
    ),
>(
    peek: P,
    refit: F,
    collapse: C,
    session_id: Seq<char>,
    marks: Stamps,
    before: DriverView<S, R>,
    event: ReplayEvent<R>,
    action: ActionView<R>,
    after: DriverView<S, R>,
) -> bool {
    match event {
        ReplayEvent::Sent(rx) => received_turn(before, rx, action, after),
        ReplayEvent::Ready => if before.steps.len() > 0 {
            step_turn(peek, refit, collapse, session_id, marks, before, action, after)
        } else {
            closing_turn(before, action, after)
        },
    }
}

impl<S, R> ReplayDriver<S, R> {
    /// A driver of `run`, with an empty window.
    pub fn new(run: ReplayRun, collapser: S) -> (driver: ReplayDriver<S, R>)
        ensures
            driver@ == at_start::<S, R>(run.steps(), collapser),
    {
        ReplayDriver { run, collapser, drain: ReplayCompletionDrain::new() }
    }

    /// How many receivers were handed in.
    pub fn forwarded(&self) -> (count: usize)
        ensures
            count == self@.forwarded,
    {
        self.drain.forwarded()
    }

    /// Takes an event in, and says what the host is to do next.
    ///
    /// The host sends what it is told to and hands in the receiver of the
    /// acknowledgement, waits for what it is told to wait for, and goes on until
    /// the replay is done. What is left in the collapser then is not sent: it
    /// would go out without the recorded number of its event, and once more on a
    /// reconnect.
    ///
    /// `session_id` and the closures are those of [`replay::forward_step`].
    pub fn advance<
        P: Fn(&str) -> Option<RawLinePeek>,
        F: Fn(&str) -> Refit,
        C: Fn(S, agent_client_protocol::SessionUpdate) -> (
            S,
            Option<agent_client_protocol::SessionUpdate>,
        ),
    >(
        self,
        event: ReplayEvent<R>,
        session_id: &str,
        persist_data: Option<&Json>,
        target_client_id: Option<&Json>,
        mark_replay: bool,
        peek: &P,
        refit: &F,
        collapse: &C,
    ) -> (turn: (ReplayDriver<S, R>, ReplayAction<R>))
        requires
            event is Sent ==> self@.forwarded < usize::MAX,
            forall|text: &str| call_requires(*peek, (text,)),
            forall|text: &str| call_requires(*refit, (text,)),
            forall|state: S, update: agent_client_protocol::SessionUpdate|
                call_requires(*collapse, (state, update)),
        ensures
            takes_turn(
                *peek,
                *refit,
                *collapse,
                session_id@,
                forward::stamps(persist_data, target_client_id, mark_replay),
                self@,
                event,
                turn.1@,
                turn.0@,
            ),
    {
        let ReplayDriver { run, collapser, drain } = self;
        let mut run: ReplayRun = run;
        let mut drain: ReplayCompletionDrain<R> = drain;
        if let ReplayEvent::Sent(rx) = event {
            let oldest = drain.make_room();
            drain.push(rx);
            let action = match oldest {
                Some(rx) => ReplayAction::AwaitOldest(rx),
                None => ReplayAction::Proceed,
            };
            return (ReplayDriver { run, collapser, drain }, action);
        }
        match run.next_step() {
            Some(step) => {
                let (collapser_after, notification) = replay::forward_step(
                    session_id,
                    step,
                    persist_data,
                    target_client_id,
                    mark_replay,
                    collapser,
                    peek,
                    refit,
                    collapse,
                );
                let action = match notification {
                    Some(notification) => ReplayAction::Send(notification),
                    None => ReplayAction::Proceed,
                };
                (ReplayDriver { run, collapser: collapser_after, drain }, action)
            },
            None => {
                let rest = drain.drain_all();
                assert(rest.len() == 0 ==> drain.pending() =~= rest@);
                let action = if rest.len() > 0 {
                    ReplayAction::AwaitRest(rest)
                } else {
                    ReplayAction::Done
                };
                (ReplayDriver { run, collapser, drain }, action)
            },
        }
    }
}

/// One event, and the action that answers it.
pub struct Turn<R> {
    pub event: ReplayEvent<R>,
    pub action: ActionView<R>,
}

/// Whether `turns` are turns of one replay, with `states` the state before each
/// of them and after the last.
pub open spec fn ran<
    S,
    R,
    P: Fn(&str) -> Option<RawLinePeek>,
    F: Fn(&str) -> Refit,
    C: Fn(S, agent_client_protocol::SessionUpdate) -> (
        S,
        Option<agent_client_protocol::SessionUpdate>,
    ),
>(
    peek: P,
    refit: F,
    collapse: C,
    session_id: Seq<char>,
    marks: Stamps,
    states: Seq<DriverView<S, R>>,
    turns: Seq<Turn<R>>,
) -> bool {
    &&& states.len() == turns.len() + 1
    &&& forall|i: int|
        0 <= i < turns.len() ==> takes_turn(
            peek,
            refit,
            collapse,
            session_id,
            marks,
            states[i],
            (#[trigger] turns[i]).event,
            turns[i].action,
            states[i + 1],
        )
}

/// The receivers that were handed in, in order.
pub open spec fn received_in<R>(turns: Seq<Turn<R>>) -> Seq<R>
    decreases turns.len(),
{
    if turns.len() == 0 {
        seq![]
    } else {
        match turns.last().event {
            ReplayEvent::Sent(rx) => received_in(turns.drop_last()).push(rx),
            ReplayEvent::Ready => received_in(turns.drop_last()),
        }
    }
}

/// The notifications that were sent, in order.
pub open spec fn sent_in<R>(turns: Seq<Turn<R>>) -> Seq<NotificationView>
    decreases turns.len(),
{
    if turns.len() == 0 {
        seq![]
    } else {
        match turns.last().action {
            ActionView::Send(notification) => sent_in(turns.drop_last()).push(notification),
            _ => sent_in(turns.drop_last()),
        }
    }
}

/// The receivers that were to be awaited, in the order of awaiting.
pub open spec fn awaited_in<R>(turns: Seq<Turn<R>>) -> Seq<R>
    decreases turns.len(),
{
    if turns.len() == 0 {
        seq![]
    } else {
        match turns.last().action {
            ActionView::AwaitOldest(rx) => awaited_in(turns.drop_last()).push(rx),
            ActionView::AwaitRest(rest) => awaited_in(turns.drop_last()) + rest,
            _ => awaited_in(turns.drop_last()),
        }
    }
}

/// Whether a receiver is handed in after the turn `i` just where that turn sends
/// a notification.
pub open spec fn answered_after<R>(turns: Seq<Turn<R>>, i: int) -> bool {
    turns[i].action is Send <==> turns[i + 1].event is Sent
}

/// Whether the receiver of each notification was handed in right after it was
/// sent, and no other was.
pub open spec fn each_sent_is_answered<R>(turns: Seq<Turn<R>>) -> bool {
    &&& turns.len() > 0 ==> turns[0].event is Ready
    &&& forall|i: int| 0 <= i < turns.len() - 1 ==> #[trigger] answered_after(turns, i)
}

/// Whether the steps `steps` go out as `outcomes`, one by one, with `collapsers`
/// the collapser before each of them and after the last.
pub open spec fn step_by_step_sent<
    S,
    P: Fn(&str) -> Option<RawLinePeek>,
    F: Fn(&str) -> Refit,
    C: Fn(S, agent_client_protocol::SessionUpdate) -> (
        S,
        Option<agent_client_protocol::SessionUpdate>,
    ),
>(
    peek: P,
    refit: F,
    collapse: C,
    session_id: Seq<char>,
    marks: Stamps,
    steps: Seq<ReplayStep>,
    collapsers: Seq<S>,
    outcomes: Seq<Option<NotificationView>>,
) -> bool {
    &&& collapsers.len() == steps.len() + 1
    &&& outcomes.len() == steps.len()
    &&& forall|i: int|
        0 <= i < steps.len() ==> replay::step_sent(
            peek,
            refit,
            collapse,
            session_id,
            steps[i],
            marks,
            collapsers[i],
            collapsers[i + 1],
            #[trigger] outcomes[i],
        )
}

/// Whether the steps `steps`, one after the other, go out as `sent`, with
/// `collapser` become `collapser_after`.
pub open spec fn steps_sent<
    S,
    P: Fn(&str) -> Option<RawLinePeek>,
    F: Fn(&str) -> Refit,
    C: Fn(S, agent_client_protocol::SessionUpdate) -> (
        S,
        Option<agent_client_protocol::SessionUpdate>,
    ),
>(
    peek: P,
    refit: F,
    collapse: C,
    session_id: Seq<char>,
    marks: Stamps,
    steps: Seq<ReplayStep>,
    collapser: S,
    collapser_after: S,
    sent: Seq<NotificationView>,
) -> bool {
    exists|collapsers: Seq<S>, outcomes: Seq<Option<NotificationView>>|
        {
            &&& #[trigger] step_by_step_sent(
                peek,
                refit,
                collapse,
                session_id,
                marks,
                steps,
                collapsers,
                outcomes,
            )
            &&& collapsers.first() == collapser
            &&& collapsers.last() == collapser_after
            &&& sent == replay::all_sent(outcomes)
        }
}

proof fn lemma_ran_before_last<
    S,
    R,
    P: Fn(&str) -> Option<RawLinePeek>,
    F: Fn(&str) -> Refit,
    C: Fn(S, agent_client_protocol::SessionUpdate) -> (
        S,
        Option<agent_client_protocol::SessionUpdate>,
    ),
>(
    peek: P,
    refit: F,
    collapse: C,
    session_id: Seq<char>,
    marks: Stamps,
    states: Seq<DriverView<S, R>>,
    turns: Seq<Turn<R>>,
)
    requires
        ran(peek, refit, collapse, session_id, marks, states, turns),
        turns.len() > 0,
    ensures
        ran(peek, refit, collapse, session_id, marks, states.drop_last(), turns.drop_last()),
        states.drop_last().first() == states.first(),
        takes_turn(
            peek,
            refit,
            collapse,
            session_id,
            marks,
            states.drop_last().last(),
            turns.last().event,
            turns.last().action,
            states.last(),
        ),
{
    let n = turns.len() - 1;
    assert(takes_turn(
        peek,
        refit,
        collapse,
        session_id,
        marks,
        states[n],
        turns[n].event,
        turns[n].action,
        states[n + 1],
    ));
    assert forall|i: int| 0 <= i < n implies takes_turn(
        peek,
        refit,
        collapse,
        session_id,
        marks,
        states.drop_last()[i],
        (#[trigger] turns.drop_last()[i]).event,
        turns.drop_last()[i].action,
        states.drop_last()[i + 1],
    ) by {
        assert(turns[i] == turns.drop_last()[i]);
    }
}

proof fn lemma_ran_up_to<
    S,
    R,
    P: Fn(&str) -> Option<RawLinePeek>,
    F: Fn(&str) -> Refit,
    C: Fn(S, agent_client_protocol::SessionUpdate) -> (
        S,
        Option<agent_client_protocol::SessionUpdate>,
    ),
>(
    peek: P,
    refit: F,
    collapse: C,
    session_id: Seq<char>,
    marks: Stamps,
    states: Seq<DriverView<S, R>>,
    turns: Seq<Turn<R>>,
    i: int,
)
    requires
        ran(peek, refit, collapse, session_id, marks, states, turns),
        0 <= i <= turns.len(),
    ensures
        ran(peek, refit, collapse, session_id, marks, states.take(i + 1), turns.take(i)),
{
    assert forall|j: int| 0 <= j < i implies takes_turn(
        peek,
        refit,
        collapse,
        session_id,
        marks,
        states.take(i + 1)[j],
        (#[trigger] turns.take(i)[j]).event,
        turns.take(i)[j].action,
        states.take(i + 1)[j + 1],
    ) by {
        assert(turns[j] == turns.take(i)[j]);
    }
}

/// At any time of a replay, the receivers that were handed in are those that
/// were to be awaited, the oldest first, and those that are in the window; and
/// no more than [`REPLAY_COMPLETION_WINDOW`] are in the window. While there are
/// steps to take, the window holds what is left there by all that was sent.
pub proof fn receivers_are_awaited_or_in_the_window<
    S,
    R,
    P: Fn(&str) -> Option<RawLinePeek>,
    F: Fn(&str) -> Refit,
    C: Fn(S, agent_client_protocol::SessionUpdate) -> (
        S,
        Option<agent_client_protocol::SessionUpdate>,
    ),
>(
    peek: P,
    refit: F,
    collapse: C,
    session_id: Seq<char>,
    marks: Stamps,
    states: Seq<DriverView<S, R>>,
    turns: Seq<Turn<R>>,
)
    requires
        ran(peek, refit, collapse, session_id, marks, states, turns),
        states.first().window.len() == 0,
    ensures
        awaited_in(turns) + states.last().window == received_in(turns),
        states.last().window.len() <= REPLAY_COMPLETION_WINDOW,
        states.last().forwarded == states.first().forwarded + received_in(turns).len(),
        states.last().steps.len() > 0 ==> {
            &&& states.last().window == drain::waiting_after(received_in(turns))
            &&& awaited_in(turns) == drain::awaited_during(received_in(turns))
        },
    decreases turns.len(),
{
    if turns.len() == 0 {
        assert(states.last().window =~= seq![]);
        assert(awaited_in(turns) + states.last().window =~= received_in(turns));
    } else {
        lemma_ran_before_last(peek, refit, collapse, session_id, marks, states, turns);
        receivers_are_awaited_or_in_the_window(
            peek,
            refit,
            collapse,
            session_id,
            marks,
            states.drop_last(),
            turns.drop_last(),
        );
        let window = states.drop_last().last().window;
        let received = received_in(turns);
        if let ReplayEvent::Sent(rx) = turns.last().event {
            assert(received.drop_last() =~= received_in(turns.drop_last()));
            if window.len() >= REPLAY_COMPLETION_WINDOW {
                assert(window =~= seq![window[0]] + window.drop_first());
            }
        }
        assert(awaited_in(turns) + states.last().window =~= received);
    }
}

/// What a replay has sent at any time is what its steps so far go out as, in
/// order, with one collapser handed on from line to line; and the steps that are
/// left are the others.
pub proof fn steps_go_out_in_order<
    S,
    R,
    P: Fn(&str) -> Option<RawLinePeek>,
    F: Fn(&str) -> Refit,
    C: Fn(S, agent_client_protocol::SessionUpdate) -> (
        S,
        Option<agent_client_protocol::SessionUpdate>,
    ),
>(
    peek: P,
    refit: F,
    collapse: C,
    session_id: Seq<char>,
    marks: Stamps,
    states: Seq<DriverView<S, R>>,
    turns: Seq<Turn<R>>,
)
    requires
        ran(peek, refit, collapse, session_id, marks, states, turns),
    ensures
        ({
            let taken = states.first().steps.len() - states.last().steps.len();
            &&& 0 <= taken <= states.first().steps.len()
            &&& states.last().steps == states.first().steps.skip(taken)
            &&& steps_sent(
                peek,
                refit,
                collapse,
                session_id,
                marks,
                states.first().steps.take(taken),
                states.first().collapser,
                states.last().collapser,
                sent_in(turns),
            )
        }),
{
    let (collapsers, outcomes) = lemma_outcomes_of_steps(
        peek,
        refit,
        collapse,
        session_id,
        marks,
        states,
        turns,
    );
}

proof fn lemma_outcomes_of_steps<
    S,
    R,
    P: Fn(&str) -> Option<RawLinePeek>,
    F: Fn(&str) -> Refit,
    C: Fn(S, agent_client_protocol::SessionUpdate) -> (
        S,
        Option<agent_client_protocol::SessionUpdate>,
    ),
>(
    peek: P,
    refit: F,
    collapse: C,
    session_id: Seq<char>,
    marks: Stamps,
    states: Seq<DriverView<S, R>>,
    turns: Seq<Turn<R>>,
) -> (witness: (Seq<S>, Seq<Option<NotificationView>>))
    requires
        ran(peek, refit, collapse, session_id, marks, states, turns),
    ensures
        witness.1.len() <= states.first().steps.len(),
        states.last().steps == states.first().steps.skip(witness.1.len() as int),
        step_by_step_sent(
            peek,
            refit,
            collapse,
            session_id,
            marks,
            states.first().steps.take(witness.1.len() as int),
            witness.0,
            witness.1,
        ),
        witness.0.first() == states.first().collapser,
        witness.0.last() == states.last().collapser,
        sent_in(turns) == replay::all_sent(witness.1),
    decreases turns.len(),
{
    let steps = states.first().steps;
    reveal(Seq::filter_map);
    if turns.len() == 0 {
        let outcomes: Seq<Option<NotificationView>> = seq![];
        assert(states.last().steps =~= steps.skip(0));
        assert(sent_in(turns) =~= replay::all_sent(outcomes));
        (seq![states.first().collapser], outcomes)
    } else {
        lemma_ran_before_last(peek, refit, collapse, session_id, marks, states, turns);
        let (collapsers, outcomes) = lemma_outcomes_of_steps(
            peek,
            refit,
            collapse,
            session_id,
            marks,
            states.drop_last(),
            turns.drop_last(),
        );
        let before = states.drop_last().last();
        let n = outcomes.len() as int;
        if turns.last().event is Ready && before.steps.len() > 0 {
            let collapsers_after = collapsers.push(states.last().collapser);
            let outcomes_after = outcomes.push(sent_by(turns.last().action));
            assert(before.steps[0] == steps[n]);
            assert(before.steps.drop_first() =~= steps.skip(n + 1));
            assert forall|i: int| 0 <= i < n + 1 implies replay::step_sent(
                peek,
                refit,
                collapse,
                session_id,
                steps.take(n + 1)[i],
                marks,
                collapsers_after[i],
                collapsers_after[i + 1],
                #[trigger] outcomes_after[i],
            ) by {
                if i < n {
                    assert(outcomes[i] == outcomes_after[i]);
                    assert(steps.take(n)[i] == steps.take(n + 1)[i]);
                }
            }
            assert(outcomes_after.drop_last() =~= outcomes);
            assert(sent_in(turns) =~= replay::all_sent(outcomes_after));
            (collapsers_after, outcomes_after)
        } else {
            (collapsers, outcomes)
        }
    }
}

/// Where each notification's receiver is handed in, as many were handed in as
/// notifications were sent, but for the one that was sent last.
proof fn lemma_one_receiver_for_each_sent<R>(turns: Seq<Turn<R>>)
    requires
        each_sent_is_answered(turns),
    ensures
        received_in(turns).len() == sent_in(turns).len() - if turns.len() > 0
            && turns.last().action is Send {
            1int
        } else {
            0
        },
    decreases turns.len(),
{
    if turns.len() > 0 {
        let front = turns.drop_last();
        assert forall|i: int| 0 <= i < front.len() - 1 implies #[trigger] answered_after(
            front,
            i,
        ) by {
            assert(answered_after(turns, i));
        }
        lemma_one_receiver_for_each_sent(front);
        if front.len() > 0 {
            assert(answered_after(turns, turns.len() - 2));
        }
    }
}

/// A whole replay, from its start until it is done: it has sent what all of its
/// steps go out as, in order and with one collapser handed on; each receiver
/// that was handed in was to be awaited, in the order of sending; and where the
/// host handed in the receiver of each notification, none was missing. Whenever
/// the next step was taken, no more than [`REPLAY_COMPLETION_WINDOW`] receivers
/// were held that had not been awaited.
pub proof fn a_whole_replay_is_sent_and_awaited<
    S,
    R,
    P: Fn(&str) -> Option<RawLinePeek>,
    F: Fn(&str) -> Refit,
    C: Fn(S, agent_client_protocol::SessionUpdate) -> (
        S,
        Option<agent_client_protocol::SessionUpdate>,
    ),
>(
    peek: P,
    refit: F,
    collapse: C,
    session_id: Seq<char>,
    marks: Stamps,
    run: ReplayRun,
    collapser: S,
    states: Seq<DriverView<S, R>>,
    turns: Seq<Turn<R>>,
)
    requires
        ran(peek, refit, collapse, session_id, marks, states, turns),
        states.first() == at_start::<S, R>(run.steps(), collapser),
        turns.len() > 0,
        turns.last().action is Done,
    ensures
        steps_sent(
            peek,
            refit,
            collapse,
            session_id,
            marks,
            run.steps(),
            collapser,
            states.last().collapser,
            sent_in(turns),
        ),
        awaited_in(turns) == received_in(turns),
        each_sent_is_answered(turns) ==> received_in(turns).len() == sent_in(turns).len(),
        forall|i: int|
            0 <= i < states.len() ==> {
                &&& (#[trigger] states[i]).window.len() <= REPLAY_COMPLETION_WINDOW
                &&& awaited_in(turns.take(i)) + states[i].window == received_in(turns.take(i))
                &&& states[i].steps.len() > 0 ==> states[i].window == drain::waiting_after(
                    received_in(turns.take(i)),
                )
            },
{
    lemma_ran_before_last(peek, refit, collapse, session_id, marks, states, turns);
    receivers_are_awaited_or_in_the_window(
        peek,
        refit,
        collapse,
        session_id,
        marks,
        states,
        turns,
    );
    steps_go_out_in_order(peek, refit, collapse, session_id, marks, states, turns);
    assert(run.steps().take(run.steps().len() as int) =~= run.steps());
    assert(states.last().window =~= seq![]);
    assert(awaited_in(turns) + states.last().window =~= awaited_in(turns));
    if each_sent_is_answered(turns) {
        lemma_one_receiver_for_each_sent(turns);
    }
    assert forall|i: int| 0 <= i < states.len() implies {
        &&& (#[trigger] states[i]).window.len() <= REPLAY_COMPLETION_WINDOW
        &&& awaited_in(turns.take(i)) + states[i].window == received_in(turns.take(i))
        &&& states[i].steps.len() > 0 ==> states[i].window == drain::waiting_after(
            received_in(turns.take(i)),
        )
    } by {
        lemma_ran_up_to(peek, refit, collapse, session_id, marks, states, turns, i);
        receivers_are_awaited_or_in_the_window(
            peek,
            refit,
            collapse,
            session_id,
            marks,
            states.take(i + 1),
            turns.take(i),
        );
    }
}

/// A replay ends: where the host hands in the receiver of each notification that
/// it sent, and of nothing else, the replay is done after two turns for each of
/// its steps and two more, at the latest.
pub proof fn a_replay_ends<
    S,
    R,
    P: Fn(&str) -> Option<RawLinePeek>,
    F: Fn(&str) -> Refit,
    C: Fn(S, agent_client_protocol::SessionUpdate) -> (
        S,
        Option<agent_client_protocol::SessionUpdate>,
    ),
>(
    peek: P,
    refit: F,
    collapse: C,
    session_id: Seq<char>,
    marks: Stamps,
    run: ReplayRun,
    collapser: S,
    states: Seq<DriverView<S, R>>,
    turns: Seq<Turn<R>>,
)
    requires
        ran(peek, refit, collapse, session_id, marks, states, turns),
        states.first() == at_start::<S, R>(run.steps(), collapser),
        each_sent_is_answered(turns),
        turns.len() >= 2 * run.steps().len() + 2,
    ensures
        exists|i: int|
            0 <= i < 2 * run.steps().len() + 2 && (#[trigger] turns[i]).action is Done,
{
    let bound = 2 * run.steps().len() as int + 2;
    if forall|i: int| 0 <= i < bound ==> !((#[trigger] turns[i]).action is Done) {
        let turns_so_far = turns.take(bound);
        lemma_ran_up_to(peek, refit, collapse, session_id, marks, states, turns, bound);
        assert forall|j: int| 0 <= j < bound - 1 implies #[trigger] answered_after(
            turns_so_far,
            j,
        ) by {
            assert(answered_after(turns, j));
        }
        assert forall|j: int| 0 <= j < bound implies !((
        #[trigger] turns_so_far[j]).action is Done) by {
            assert(turns[j] == turns_so_far[j]);
        }
        lemma_turns_are_counted(
            peek,
            refit,
            collapse,
            session_id,
            marks,
            states.take(bound + 1),
            turns_so_far,
        );
        lemma_one_receiver_for_each_sent(turns_so_far);
    }
}

proof fn lemma_turns_are_counted<
    S,
    R,
    P: Fn(&str) -> Option<RawLinePeek>,
    F: Fn(&str) -> Refit,
    C: Fn(S, agent_client_protocol::SessionUpdate) -> (
        S,
        Option<agent_client_protocol::SessionUpdate>,
    ),
>(
    peek: P,
    refit: F,
    collapse: C,
    session_id: Seq<char>,
    marks: Stamps,
    states: Seq<DriverView<S, R>>,
    turns: Seq<Turn<R>>,
)
    requires
        ran(peek, refit, collapse, session_id, marks, states, turns),
        each_sent_is_answered(turns),
        forall|i: int| 0 <= i < turns.len() ==> !((#[trigger] turns[i]).action is Done),
    ensures
        states.last().steps.len() <= states.first().steps.len(),
        ({
            let taken = states.first().steps.len() - states.last().steps.len();
            &&& sent_in(turns).len() <= taken
            &&& if turns.len() > 0 && turns.last().action is AwaitRest {
                &&& turns.len() == taken + received_in(turns).len() + 1
                &&& states.last().steps.len() == 0
                &&& states.last().window.len() == 0
            } else {
                turns.len() == taken + received_in(turns).len()
            }
        }),
    decreases turns.len(),
{
    if turns.len() > 0 {
        lemma_ran_before_last(peek, refit, collapse, session_id, marks, states, turns);
        let front = turns.drop_last();
        assert forall|i: int| 0 <= i < front.len() - 1 implies #[trigger] answered_after(
            front,
            i,
        ) by {
            assert(answered_after(turns, i));
        }
        assert forall|i: int| 0 <= i < front.len() implies !((
        #[trigger] front[i]).action is Done) by {
            assert(turns[i] == front[i]);
        }
        lemma_turns_are_counted(
            peek,
            refit,
            collapse,
            session_id,
            marks,
            states.drop_last(),
            front,
        );
        assert(!(turns[turns.len() - 1].action is Done));
        if front.len() > 0 {
            assert(answered_after(turns, turns.len() - 2));
        }
    }
}

/// What an action says leaves nothing out of it.
pub proof fn an_action_says_all_that_it_holds<R>(action: ReplayAction<R>)
    ensures
        match action {
            ReplayAction::Send(notification) => action@ == ActionView::<R>::Send(notification@),
            ReplayAction::Proceed => action@ is Proceed,
            ReplayAction::AwaitOldest(rx) => action@ == ActionView::AwaitOldest(rx),
            ReplayAction::AwaitRest(rest) => action@ == ActionView::AwaitRest(rest@),
            ReplayAction::Done => action@ is Done,
        },
{
}

/// What is sent of steps is, step by step, what forwarding each of them alone
/// gives, with the same arguments and with the collapser as the steps before left
/// it; and each session notification among it has the marks on it that were asked
/// for.
pub proof fn steps_go_out_as_each_does_alone<
    S,
    P: Fn(&str) -> Option<RawLinePeek>,
    F: Fn(&str) -> Refit,
    C: Fn(S, agent_client_protocol::SessionUpdate) -> (
        S,
        Option<agent_client_protocol::SessionUpdate>,
    ),
>(
    peek: P,
    refit: F,
    collapse: C,
    session_id: Seq<char>,
    persist_data: Option<&Json>,
    target_client_id: Option<&Json>,
    mark_replay: bool,
    steps: Seq<ReplayStep>,
    collapser: S,
    collapser_after: S,
    sent: Seq<NotificationView>,
)
    requires
        steps_sent(
            peek,
            refit,
            collapse,
            session_id,
            forward::stamps(persist_data, target_client_id, mark_replay),
            steps,
            collapser,
            collapser_after,
            sent,
        ),
    ensures
        exists|collapsers: Seq<S>, outcomes: Seq<Option<NotificationView>>|
            {
                &&& collapsers.len() == steps.len() + 1
                &&& outcomes.len() == steps.len()
                &&& #[trigger] collapsers[0] == collapser
                &&& collapsers[steps.len() as int] == collapser_after
                &&& forall|i: int|
                    0 <= i < steps.len() ==> replay::step_sent(
                        peek,
                        refit,
                        collapse,
                        session_id,
                        steps[i],
                        forward::stamps(persist_data, target_client_id, mark_replay),
                        collapsers[i],
                        collapsers[i + 1],
                        #[trigger] outcomes[i],
                    )
                &&& #[trigger] replay::sent_of(outcomes, sent)
            },
        forall|k: int|
            0 <= k < sent.len() ==> forward::has_marks_if_session(
                #[trigger] sent[k],
                persist_data,
                target_client_id,
                mark_replay,
            ),
{
    let marks = forward::stamps(persist_data, target_client_id, mark_replay);
    let (collapsers, outcomes) = choose|
        collapsers: Seq<S>,
        outcomes: Seq<Option<NotificationView>>,
    |
        {
            &&& #[trigger] step_by_step_sent(
                peek,
                refit,
                collapse,
                session_id,
                marks,
                steps,
                collapsers,
                outcomes,
            )
            &&& collapsers.first() == collapser
            &&& collapsers.last() == collapser_after
            &&& sent == replay::all_sent(outcomes)
        };
    let places = replay::lemma_sent_places(outcomes);
    assert(replay::sent_of(outcomes, sent));
    assert(collapsers[0] == collapser);
    assert forall|k: int| 0 <= k < sent.len() implies forward::has_marks_if_session(
        #[trigger] sent[k],
        persist_data,
        target_client_id,
        mark_replay,
    ) by {
        let i = places[k];
        assert(outcomes[i] == Some(sent[k]));
        replay::a_step_goes_out_as_its_line_or_aside(
            peek,
            refit,
            collapse,
            session_id,
            steps[i],
            persist_data,
            target_client_id,
            mark_replay,
            collapsers[i],
            collapsers[i + 1],
            outcomes[i],
        );
    }
}

} // verus!
