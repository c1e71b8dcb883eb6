//! A whole replay of a session, and the replay of what its log gained meanwhile.

use crate::btw::{BtwEntry, BtwQueue};
use crate::forward::{Notification, NotificationView, RawLinePeek, Refit, Stamps};
use crate::json::{Json, Tree};
use crate::{btw, forward, json, text};
use std::collections::VecDeque;
use vstd::prelude::*;

verus! {

/// A recorded line, and the Unix timestamp under which it was recorded, if that
/// is known.
#[derive(Debug)]
pub struct TimedLine {
    pub text: String,
    pub at: Option<i64>,
}

/// One step of a replay: what is to be forwarded next.
#[derive(Debug)]
pub enum ReplayStep {
    /// An aside.
    Btw(BtwEntry),
    /// A recorded line.
    Line(String),
}

/// Whether the next aside is due before the next line.
pub open spec fn aside_is_next(lines: Seq<TimedLine>, pending: Seq<BtwEntry>) -> bool {
    &&& pending.len() > 0
    &&& lines.len() == 0 || btw::due(pending[0].asked_at, lines[0].at, false)
}

/// The steps of a replay of `lines` with the asides `pending`. The asides that
/// are due before a line come before it, and those that were due before none
/// come in the end.
pub open spec fn steps_of(lines: Seq<TimedLine>, pending: Seq<BtwEntry>) -> Seq<ReplayStep>
    decreases lines.len() + pending.len(),
{
    if aside_is_next(lines, pending) {
        seq![ReplayStep::Btw(pending[0])] + steps_of(lines, pending.drop_first())
    } else if lines.len() > 0 {
        seq![ReplayStep::Line(lines[0].text)] + steps_of(lines.drop_first(), pending)
    } else {
        seq![]
    }
}

/// The asides among steps, in order.
pub open spec fn asides_in(steps: Seq<ReplayStep>) -> Seq<BtwEntry>
    decreases steps.len(),
{
    if steps.len() == 0 {
        seq![]
    } else {
        match steps[0] {
            ReplayStep::Btw(entry) => seq![entry] + asides_in(steps.drop_first()),
            ReplayStep::Line(_) => asides_in(steps.drop_first()),
        }
    }
}

/// The lines among steps, in order.
pub open spec fn lines_in(steps: Seq<ReplayStep>) -> Seq<String>
    decreases steps.len(),
{
    if steps.len() == 0 {
        seq![]
    } else {
        match steps[0] {
            ReplayStep::Btw(_) => lines_in(steps.drop_first()),
            ReplayStep::Line(text) => seq![text] + lines_in(steps.drop_first()),
        }
    }
}

/// A replay under way: the lines and the asides that are still to be forwarded.
#[derive(Debug)]
pub struct ReplayRun {
    lines: VecDeque<TimedLine>,
    pending: BtwQueue,
}

impl ReplayRun {
    /// The lines that are still to be forwarded.
    pub closed spec fn lines(self) -> Seq<TimedLine> {
        self.lines@
    }

    /// The asides that are still to be forwarded.
    pub closed spec fn pending(self) -> Seq<BtwEntry> {
        self.pending@
    }

    /// The steps that are still to be taken.
    pub open spec fn steps(self) -> Seq<ReplayStep> {
        steps_of(self.lines(), self.pending())
    }

    /// A replay of `lines` with the asides `entries`.
    pub fn new(lines: Vec<TimedLine>, entries: Vec<BtwEntry>) -> (run: ReplayRun)
        ensures
            run.lines() == lines@,
            run.pending() == entries@,
    {
        let ghost all = lines@;
        let mut queued: VecDeque<TimedLine> = VecDeque::new();
        assert(all.take(0) =~= seq![]);
        for line in taken: lines
            invariant
                taken.seq() == all,
                queued@ == all.take(taken.index()),
        {
            assert(all.take(taken.index() + 1) =~= all.take(taken.index()).push(line));
            queued.push_back(line);
        }
        assert(all.take(all.len() as int) =~= all);
        ReplayRun { lines: queued, pending: BtwQueue::new(entries) }
    }

    /// How many lines are still to be forwarded.
    pub fn remaining_lines(&self) -> (count: usize)
        ensures
            count == self.lines().len(),
    {
        self.lines.len()
    }

    /// What is to be forwarded next, or nothing where the replay has ended.
    pub fn next_step(&mut self) -> (step: Option<ReplayStep>)
        ensures
            step is Some <==> old(self).steps().len() > 0,
            step matches Some(next) ==> next == old(self).steps()[0] && final(self).steps()
                == old(self).steps().drop_first(),
            step is None ==> final(self).steps() == old(self).steps(),
    {
        let ghost steps = self.steps();
        let (line_ts, flush_rest): (Option<i64>, bool) = if self.lines.len() == 0 {
            (None, true)
        } else {
            (self.lines[0].at, false)
        };
        if let Some(entry) = self.pending.next_due(line_ts, flush_rest) {
            assert(steps.drop_first() =~= self.steps());
            return Some(ReplayStep::Btw(entry));
        }
        match self.lines.pop_front() {
            Some(line) => {
                assert(steps.drop_first() =~= self.steps());
                Some(ReplayStep::Line(line.text))
            },
            None => None,
        }
    }
}

/// What was found at the place where the log of a session's updates is kept.
#[derive(Debug, Clone, Copy)]
pub enum UpdatesLog<'a> {
    /// The session has no such place.
    NoPath,
    /// Nothing that could be read.
    Unreadable,
    /// This text.
    Text(&'a str),
}

/// A log made ready for a replay: the lines to be forwarded, and what the whole
/// log says.
#[derive(Debug)]
pub struct PreparedReplay {
    /// The lines, in order: all that are live, or those after the cursor of a
    /// reconnecting client.
    pub lines: Vec<String>,
    /// Whether the lines are historical. Those after a cursor are not.
    pub mark_replay: bool,
    pub last_tokens: u64,
    pub max_event_seq: Option<u64>,
    pub unfinished_subagents: Vec<(String, String)>,
}

/// A replay that is about to start.
#[derive(Debug)]
pub struct SessionReplay {
    /// What is to be forwarded.
    pub run: ReplayRun,
    /// Whether the lines of it are marked as historical.
    pub mark_replay: bool,
    /// The highest number of an event in the log.
    pub max_event_seq: Option<u64>,
    /// The count of tokens that the session starts with.
    pub last_tokens: u64,
    /// How many bytes of the log the replay covers.
    pub end_offset: u64,
    /// The subagents that had not finished.
    pub unfinished_subagents: Vec<(String, String)>,
}

impl SessionReplay {
    /// What the counter of events must not fall below: the number after the
    /// highest in the log.
    pub fn event_counter_floor(&self) -> (floor: Option<u64>)
        requires
            self.max_event_seq != Some(u64::MAX),
        ensures
            floor is Some <==> self.max_event_seq is Some,
            floor matches Some(next) ==> next == self.max_event_seq->0 + 1,
    {
        match self.max_event_seq {
            Some(highest) => Some(highest + 1),
            None => None,
        }
    }
}

/// Whether `at` is what `timestamp_of` may find in the text `line`.
pub open spec fn timed_as<T: Fn(&str) -> Option<i64>>(
    timestamp_of: T,
    line: Seq<char>,
    at: Option<i64>,
) -> bool {
    exists|slice: &str| slice@ == line && #[trigger] call_ensures(timestamp_of, (slice,), at)
}

/// Whether `timed` are the lines `lines`, each with the timestamp that
/// `timestamp_of` may find in it.
pub open spec fn all_timed_as<T: Fn(&str) -> Option<i64>>(
    timestamp_of: T,
    lines: Seq<String>,
    timed: Seq<TimedLine>,
) -> bool {
    &&& timed.len() == lines.len()
    &&& forall|i: int|
        0 <= i < lines.len() ==> (#[trigger] timed[i]).text == lines[i] && timed_as(
            timestamp_of,
            lines[i]@,
            timed[i].at,
        )
}

/// Gives each line the timestamp that `timestamp_of` finds in it.
pub fn time_lines<T: Fn(&str) -> Option<i64>>(lines: Vec<String>, timestamp_of: &T) -> (timed: Vec<
    TimedLine,
>)
    requires
        forall|line: &str| call_requires(*timestamp_of, (line,)),
    ensures
        all_timed_as(*timestamp_of, lines@, timed@),
{
    let ghost all = lines@;
    let mut timed: Vec<TimedLine> = Vec::new();
    for text in taken: lines
        invariant
            taken.seq() == all,
            forall|line: &str| call_requires(*timestamp_of, (line,)),
            timed.len() == taken.index(),
            forall|i: int|
                0 <= i < timed.len() ==> (#[trigger] timed@[i]).text == all[i] && timed_as(
                    *timestamp_of,
                    all[i]@,
                    timed@[i].at,
                ),
    {
        let at = timestamp_of(text.as_str());
        assert(timed_as(*timestamp_of, text@, at));
        timed.push(TimedLine { text, at });
    }
    timed
}

/// Whether `planned` says nothing of a log, and has nothing but the asides
/// `entries` to forward.
pub open spec fn only_asides(planned: SessionReplay, entries: Seq<BtwEntry>) -> bool {
    &&& planned.run.lines() == Seq::<TimedLine>::empty()
    &&& planned.run.pending() == entries
    &&& planned.mark_replay
    &&& planned.max_event_seq is None
    &&& planned.last_tokens == 0
    &&& planned.end_offset == 0
    &&& planned.unfinished_subagents@ == Seq::<(String, String)>::empty()
}

/// Whether `planned` is the replay of the log `log` that was made ready as
/// `prepared`. The asides of the history are replayed with historical lines
/// only: a reconnecting client whose cursor was found has them.
pub open spec fn replays_log<
    T: Fn(&str) -> Option<i64>,
    P: Fn(&str) -> Option<BtwEntry>,
    W: Fn(&Vec<&str>) -> Vec<(i64, i64)>,
>(
    timestamp_of: T,
    parse: P,
    windows_of: W,
    log: &str,
    history: Seq<char>,
    prepared: PreparedReplay,
    planned: SessionReplay,
) -> bool {
    &&& all_timed_as(timestamp_of, prepared.lines@, planned.run.lines())
    &&& if prepared.mark_replay {
        btw::restored_from(parse, windows_of, history, log@, planned.run.pending())
    } else {
        planned.run.pending() == Seq::<BtwEntry>::empty()
    }
    &&& planned.mark_replay == prepared.mark_replay
    &&& planned.max_event_seq == prepared.max_event_seq
    &&& planned.last_tokens == prepared.last_tokens
    &&& planned.end_offset == log.len() as u64
    &&& planned.unfinished_subagents == prepared.unfinished_subagents
}

/// Whether `planned` is a replay of the log `log` after the cursor `cursor`, as
/// `prepare` may make it ready.
pub open spec fn planned_from<
    R: Fn(&str, Option<&str>) -> PreparedReplay,
    T: Fn(&str) -> Option<i64>,
    P: Fn(&str) -> Option<BtwEntry>,
    W: Fn(&Vec<&str>) -> Vec<(i64, i64)>,
>(
    prepare: R,
    timestamp_of: T,
    parse: P,
    windows_of: W,
    log: &str,
    cursor: Option<&str>,
    history: Seq<char>,
    planned: SessionReplay,
) -> bool {
    exists|prepared: PreparedReplay|
        {
            &&& #[trigger] call_ensures(prepare, (log, cursor), prepared)
            &&& replays_log(timestamp_of, parse, windows_of, log, history, prepared, planned)
        }
}

/// Plans the replay of a session's log to a client that loads the session.
///
/// `cursor` is what a reconnecting client saw last, and `history` the text of
/// the history of asides. Without a log, a client that has seen nothing is still
/// sent the asides.
///
/// `prepare` makes a log ready for a replay after a cursor, `timestamp_of` finds
/// the timestamp of a recorded line, `parse` reads one record of the history,
/// and `windows_of` finds the ranges of seconds that rewinds discarded.
pub fn replay_session_updates<
    R: Fn(&str, Option<&str>) -> PreparedReplay,
    T: Fn(&str) -> Option<i64>,
    P: Fn(&str) -> Option<BtwEntry>,
    W: Fn(&Vec<&str>) -> Vec<(i64, i64)>,
>(
    log: UpdatesLog<'_>,
    cursor: Option<&str>,
    history: &str,
    prepare: R,
    timestamp_of: T,
    parse: P,
    windows_of: W,
) -> (planned: SessionReplay)
    requires
        forall|text: &str, after: Option<&str>| call_requires(prepare, (text, after)),
        forall|line: &str| call_requires(timestamp_of, (line,)),
        forall|line: &str| call_requires(parse, (line,)),
        forall|lines: &Vec<&str>| call_requires(windows_of, (lines,)),
    ensures
        log is NoPath ==> only_asides(planned, Seq::empty()),
        log is Unreadable || (log matches UpdatesLog::Text(text) && text@.len() == 0) ==> {
            &&& only_asides(planned, planned.run.pending())
            &&& cursor is None ==> btw::loaded_from(parse, history@, planned.run.pending())
            &&& cursor is Some ==> planned.run.pending() == Seq::<BtwEntry>::empty()
        },
        log matches UpdatesLog::Text(text) ==> text@.len() > 0 ==> planned_from(
            prepare,
            timestamp_of,
            parse,
            windows_of,
            text,
            cursor,
            history@,
            planned,
        ),
{
    let text: &str = match log {
        UpdatesLog::NoPath => {
            return asides_alone(Vec::new());
        },
        UpdatesLog::Unreadable => "",
        UpdatesLog::Text(text) => text,
    };
    if matches!(log, UpdatesLog::Unreadable) || text.is_empty() {
        let entries: Vec<BtwEntry> = if cursor.is_none() {
            btw::load_successful_btw_from_str(history, parse)
        } else {
            Vec::new()
        };
        return asides_alone(entries);
    }
    let prepared = prepare(text, cursor);
    let ghost ready = prepared;
    let entries: Vec<BtwEntry> = if prepared.mark_replay {
        btw::load_btw_entries_for_replay(history, text, parse, windows_of)
    } else {
        Vec::new()
    };
    let lines = time_lines(prepared.lines, &timestamp_of);
    let planned = SessionReplay {
        run: ReplayRun::new(lines, entries),
        mark_replay: prepared.mark_replay,
        max_event_seq: prepared.max_event_seq,
        last_tokens: prepared.last_tokens,
        end_offset: text.len() as u64,
        unfinished_subagents: prepared.unfinished_subagents,
    };
    assert(replays_log(timestamp_of, parse, windows_of, text, history@, ready, planned));
    planned
}

/// A replay of nothing but asides.
fn asides_alone(entries: Vec<BtwEntry>) -> (planned: SessionReplay)
    ensures
        only_asides(planned, entries@),
{
    SessionReplay {
        run: ReplayRun::new(Vec::new(), entries),
        mark_replay: true,
        max_event_seq: None,
        last_tokens: 0,
        end_offset: 0,
        unfinished_subagents: Vec::new(),
    }
}

/// Whether one step of the replay of the session `session_id` goes out as
/// `sent`, with `collapser` become `collapser_after`. An aside goes out as
/// historical, whatever the lines go out as, and never reaches the collapser.
pub open spec fn step_sent<
    S,
    P: Fn(&str) -> Option<RawLinePeek>,
    F: Fn(&str) -> Refit,
    C: Fn(S, agent_client_protocol::SessionUpdate) -> (
        S,
        Option<agent_client_protocol::SessionUpdate>,
    ),
>(
    peek: P,
    refit: F,
    collapse: C,
    session_id: Seq<char>,
    step: ReplayStep,
    marks: Stamps,
    collapser: S,
    collapser_after: S,
    sent: Option<NotificationView>,
) -> bool {
    match step {
        ReplayStep::Btw(entry) => {
            &&& collapser_after == collapser
            &&& sent == Some(
                forward::extension(
                    json::json_text(
                        forward::btw_params(
                            session_id,
                            entry,
                            marks.persist_data,
                            marks.target_client_id,
                        ),
                    ),
                ),
            )
        },
        ReplayStep::Line(text) => forward::line_sent(
            peek,
            refit,
            collapse,
            text@,
            marks,
            collapser,
            collapser_after,
            sent,
        ),
    }
}

/// What one step of the replay of the session `session_id` is forwarded as, if
/// it is, and the state of the collapser after it. The closures are those of
/// [`forward::forward_raw_replay_line`].
pub fn forward_step<
    S,
    P: Fn(&str) -> Option<RawLinePeek>,
    F: Fn(&str) -> Refit,
    C: Fn(S, agent_client_protocol::SessionUpdate) -> (
        S,
        Option<agent_client_protocol::SessionUpdate>,
    ),
>(
    session_id: &str,
    step: ReplayStep,
    persist_data: Option<&Json>,
    target_client_id: Option<&Json>,
    mark_replay: bool,
    collapser: S,
    peek: &P,
    refit: &F,
    collapse: &C,
) -> (forwarded: (S, Option<Notification>))
    requires
        forall|text: &str| call_requires(*peek, (text,)),
        forall|text: &str| call_requires(*refit, (text,)),
        forall|state: S, update: agent_client_protocol::SessionUpdate|
            call_requires(*collapse, (state, update)),
    ensures
        step_sent(
            *peek,
            *refit,
            *collapse,
            session_id@,
            step,
            forward::stamps(persist_data, target_client_id, mark_replay),
            collapser,
            forwarded.0,
            forward::sent_view(forwarded.1),
        ),
{
    match step {
        ReplayStep::Btw(entry) => (
            collapser,
            forward::forward_replay_btw(session_id, &entry, persist_data, target_client_id),
        ),
        ReplayStep::Line(text) => forward::forward_raw_replay_line(
            text.as_str(),
            persist_data,
            target_client_id,
            mark_replay,
            collapser,
            peek,
            refit,
            collapse,
        ),
    }
}

/// What notifications say.
pub open spec fn all_sent_view(sent: Seq<Notification>) -> Seq<NotificationView> {
    sent.map_values(|notification: Notification| notification@)
}

/// What is sent of lines that go out as `outcomes`.
pub open spec fn all_sent(outcomes: Seq<Option<NotificationView>>) -> Seq<NotificationView> {
    outcomes.filter_map(|outcome: Option<NotificationView>| outcome)
}

/// Whether the recorded lines `lines` go out as `outcomes`, one by one, with
/// `collapsers` the collapser before each of them and after the last.
pub open spec fn line_by_line_sent<
    S,
    P: Fn(&str) -> Option<RawLinePeek>,
    F: Fn(&str) -> Refit,
    C: Fn(S, agent_client_protocol::SessionUpdate) -> (
        S,
        Option<agent_client_protocol::SessionUpdate>,
    ),
>(
    peek: P,
    refit: F,
    collapse: C,
    lines: Seq<String>,
    marks: Stamps,
    collapsers: Seq<S>,
    outcomes: Seq<Option<NotificationView>>,
) -> bool {
    &&& collapsers.len() == lines.len() + 1
    &&& outcomes.len() == lines.len()
    &&& forall|i: int|
        0 <= i < lines.len() ==> forward::line_sent(
            peek,
            refit,
            collapse,
            lines[i]@,
            marks,
            collapsers[i],
            collapsers[i + 1],
            #[trigger] outcomes[i],
        )
}

/// Whether the recorded lines `lines`, one after the other, go out as `sent`,
/// with `collapser` become `collapser_after`.
pub open spec fn lines_sent<
    S,
    P: Fn(&str) -> Option<RawLinePeek>,
    F: Fn(&str) -> Refit,
    C: Fn(S, agent_client_protocol::SessionUpdate) -> (
        S,
        Option<agent_client_protocol::SessionUpdate>,
    ),
>(
    peek: P,
    refit: F,
    collapse: C,
    lines: Seq<String>,
    marks: Stamps,
    collapser: S,
    collapser_after: S,
    sent: Seq<NotificationView>,
) -> bool {
    exists|collapsers: Seq<S>, outcomes: Seq<Option<NotificationView>>|
        {
            &&& #[trigger] line_by_line_sent(
                peek,
                refit,
                collapse,
                lines,
                marks,
                collapsers,
                outcomes,
            )
            &&& collapsers.first() == collapser
            &&& collapsers.last() == collapser_after
            &&& sent == all_sent(outcomes)
        }
}

/// What is forwarded of recorded lines, one after the other.
pub fn forward_lines<
    S,
    P: Fn(&str) -> Option<RawLinePeek>,
    F: Fn(&str) -> Refit,
    C: Fn(S, agent_client_protocol::SessionUpdate) -> (
        S,
        Option<agent_client_protocol::SessionUpdate>,
    ),
>(
    lines: &Vec<String>,
    persist_data: Option<&Json>,
    target_client_id: Option<&Json>,
    mark_replay: bool,
    collapser: S,
    peek: &P,
    refit: &F,
    collapse: &C,
) -> (forwarded: (S, Vec<Notification>))
    requires
        forall|text: &str| call_requires(*peek, (text,)),
        forall|text: &str| call_requires(*refit, (text,)),
        forall|state: S, update: agent_client_protocol::SessionUpdate|
            call_requires(*collapse, (state, update)),
    ensures
        lines_sent(
            *peek,
            *refit,
            *collapse,
            lines@,
            forward::stamps(persist_data, target_client_id, mark_replay),
            collapser,
            forwarded.0,
            all_sent_view(forwarded.1@),
        ),
{
    let ghost marks = forward::stamps(persist_data, target_client_id, mark_replay);
    let ghost mut collapsers: Seq<S> = seq![collapser];
    let ghost mut outcomes: Seq<Option<NotificationView>> = seq![];
    let mut state: S = collapser;
    let mut sent: Vec<Notification> = Vec::new();
    let mut i: usize = 0;
    proof {
        reveal(Seq::filter_map);
        assert(all_sent_view(sent@) =~= all_sent(outcomes));
    }
    while i < lines.len()
        invariant
            i <= lines.len(),
            forall|text: &str| call_requires(*peek, (text,)),
            forall|text: &str| call_requires(*refit, (text,)),
            forall|state: S, update: agent_client_protocol::SessionUpdate|
                call_requires(*collapse, (state, update)),
            marks == forward::stamps(persist_data, target_client_id, mark_replay),
            line_by_line_sent(
                *peek,
                *refit,
                *collapse,
                lines@.take(i as int),
                marks,
                collapsers,
                outcomes,
            ),
            collapsers.first() == collapser,
            collapsers.last() == state,
            all_sent_view(sent@) == all_sent(outcomes),
        decreases lines.len() - i,
    {
        let ghost before = sent@;
        let (next, notification) = forward::forward_raw_replay_line(
            lines[i].as_str(),
            persist_data,
            target_client_id,
            mark_replay,
            state,
            peek,
            refit,
            collapse,
        );
        let ghost outcome = forward::sent_view(notification);
        state = next;
        if let Some(notification) = notification {
            sent.push(notification);
        }
        proof {
            let collapsers_before = collapsers;
            let outcomes_before = outcomes;
            collapsers = collapsers.push(next);
            outcomes = outcomes.push(outcome);
            assert forall|k: int| 0 <= k < i + 1 implies forward::line_sent(
                *peek,
                *refit,
                *collapse,
                lines@.take(i + 1)[k]@,
                marks,
                collapsers[k],
                collapsers[k + 1],
                #[trigger] outcomes[k],
            ) by {
                if k < i {
                    assert(outcomes_before[k] == outcomes[k]);
                    assert(lines@.take(i as int)[k] == lines@.take(i + 1)[k]);
                }
            }
            reveal(Seq::filter_map);
            assert(outcomes.drop_last() =~= outcomes_before);
            assert(all_sent_view(sent@) =~= all_sent(outcomes));
        }
        i = i + 1;
    }
    assert(lines@.take(i as int) =~= lines@);
    (state, sent)
}

/// What is forwarded of the updates that a log gained after a replay of it:
/// `tail` is the text of the log from there on, if it could be read. It is made
/// up without a wait, so that nothing comes between it and the live updates.
///
/// `live_lines_of` finds the lines to be forwarded; the rest is as for
/// [`forward::forward_raw_replay_line`].
pub fn replay_session_updates_from_offset_enqueue<
    S,
    D: Fn(&str) -> Vec<String>,
    P: Fn(&str) -> Option<RawLinePeek>,
    F: Fn(&str) -> Refit,
    C: Fn(S, agent_client_protocol::SessionUpdate) -> (
        S,
        Option<agent_client_protocol::SessionUpdate>,
    ),
>(
    tail: Option<&str>,
    persist_data: Option<&Json>,
    target_client_id: Option<&Json>,
    mark_replay: bool,
    collapser: S,
    live_lines_of: &D,
    peek: &P,
    refit: &F,
    collapse: &C,
) -> (sent: Vec<Notification>)
    requires
        forall|text: &str| call_requires(*live_lines_of, (text,)),
        forall|text: &str| call_requires(*peek, (text,)),
        forall|text: &str| call_requires(*refit, (text,)),
        forall|state: S, update: agent_client_protocol::SessionUpdate|
            call_requires(*collapse, (state, update)),
    ensures
        tail is None || tail->0@.len() == 0 ==> sent@ == Seq::<Notification>::empty(),
        tail matches Some(text) ==> text@.len() > 0 ==> exists|lines: Vec<String>, end: S|
            {
                &&& #[trigger] call_ensures(*live_lines_of, (text,), lines)
                &&& #[trigger] lines_sent(
                    *peek,
                    *refit,
                    *collapse,
                    lines@,
                    forward::stamps(persist_data, target_client_id, mark_replay),
                    collapser,
                    end,
                    all_sent_view(sent@),
                )
            },
{
    let text: &str = match tail {
        Some(text) => text,
        None => {
            return Vec::new();
        },
    };
    if text.is_empty() {
        return Vec::new();
    }
    let lines = live_lines_of(text);
    let (_, sent) = forward_lines(
        &lines,
        persist_data,
        target_client_id,
        mark_replay,
        collapser,
        peek,
        refit,
        collapse,
    );
    sent
}

/// The texts of lines.
pub open spec fn texts(lines: Seq<TimedLine>) -> Seq<String> {
    lines.map_values(|line: TimedLine| line.text)
}

/// A replay forwards each line and each aside once, the lines in their order and
/// the asides in theirs.
pub proof fn replay_forwards_everything_once_in_order(
    lines: Seq<TimedLine>,
    pending: Seq<BtwEntry>,
)
    ensures
        lines_in(steps_of(lines, pending)) == texts(lines),
        asides_in(steps_of(lines, pending)) == pending,
        steps_of(lines, pending).len() == lines.len() + pending.len(),
    decreases lines.len() + pending.len(),
{
    let steps = steps_of(lines, pending);
    if aside_is_next(lines, pending) {
        replay_forwards_everything_once_in_order(lines, pending.drop_first());
        assert(steps.drop_first() =~= steps_of(lines, pending.drop_first()));
        assert(seq![pending[0]] + pending.drop_first() =~= pending);
    } else if lines.len() > 0 {
        replay_forwards_everything_once_in_order(lines.drop_first(), pending);
        assert(steps.drop_first() =~= steps_of(lines.drop_first(), pending));
        assert(seq![lines[0].text] + texts(lines.drop_first()) =~= texts(lines));
    } else {
        assert(texts(lines) =~= seq![]);
        assert(pending =~= seq![]);
    }
}

/// The steps that forward asides.
pub open spec fn aside_steps(entries: Seq<BtwEntry>) -> Seq<ReplayStep> {
    entries.map_values(|entry: BtwEntry| ReplayStep::Btw(entry))
}

/// The asides that are due before the first line go out, then that line, then
/// the rest; and after the last line the asides that are left go out.
pub proof fn what_is_due_goes_out_before_a_line(
    lines: Seq<TimedLine>,
    emitted: Seq<BtwEntry>,
    left: Seq<BtwEntry>,
)
    requires
        forall|i: int|
            0 <= i < emitted.len() ==> lines.len() > 0 ==> btw::due(
                (#[trigger] emitted[i]).asked_at,
                lines[0].at,
                false,
            ),
        left.len() > 0 ==> lines.len() > 0 && !btw::due(left[0].asked_at, lines[0].at, false),
    ensures
        steps_of(lines, emitted + left) == aside_steps(emitted) + if lines.len() > 0 {
            seq![ReplayStep::Line(lines[0].text)] + steps_of(lines.drop_first(), left)
        } else {
            seq![]
        },
    decreases emitted.len(),
{
    let pending = emitted + left;
    if emitted.len() > 0 {
        let rest = emitted.drop_first();
        assert forall|i: int| 0 <= i < rest.len() && lines.len() > 0 implies btw::due(
            (#[trigger] rest[i]).asked_at,
            lines[0].at,
            false,
        ) by {
            assert(rest[i] == emitted[i + 1]);
        }
        what_is_due_goes_out_before_a_line(lines, rest, left);
        assert(pending.drop_first() =~= rest + left);
        assert(pending[0] == emitted[0]);
        assert(aside_steps(emitted) =~= seq![ReplayStep::Btw(emitted[0])] + aside_steps(rest));
        let tail = if lines.len() > 0 {
            seq![ReplayStep::Line(lines[0].text)] + steps_of(lines.drop_first(), left)
        } else {
            seq![]
        };
        assert(seq![ReplayStep::Btw(emitted[0])] + (aside_steps(rest) + tail) =~= aside_steps(
            emitted,
        ) + tail);
    } else {
        assert(pending =~= left);
        assert(aside_steps(emitted) =~= seq![]);
        assert(steps_of(lines, pending) =~= aside_steps(emitted) + if lines.len() > 0 {
            seq![ReplayStep::Line(lines[0].text)] + steps_of(lines.drop_first(), left)
        } else {
            seq![]
        });
    }
}

/// Whether the aside is due before one of the lines up to the line `i`.
pub open spec fn due_by_line(entry: BtwEntry, lines: Seq<TimedLine>, i: int) -> bool {
    exists|j: int|
        0 <= j <= i && j < lines.len() && btw::due(
            entry.asked_at,
            (#[trigger] lines[j]).at,
            false,
        )
}

/// Asides that are in the order of asking go out where they were asked: before
/// the first line that was recorded in the second of asking or later, and not
/// earlier. `at` is the place of a line among the steps, and `k` counts the
/// asides: those that stand before that line are the first ones, up to the last
/// that is due by then.
pub proof fn asides_go_out_where_they_were_asked(
    lines: Seq<TimedLine>,
    pending: Seq<BtwEntry>,
    at: int,
    k: int,
)
    requires
        btw::in_order_of_asking(pending),
        0 <= at < steps_of(lines, pending).len(),
        steps_of(lines, pending)[at] is Line,
        0 <= k < pending.len(),
    ensures
        ({
            let before = steps_of(lines, pending).take(at);
            k < asides_in(before).len() <==> due_by_line(
                pending[k],
                lines,
                lines_in(before).len() as int,
            )
        }),
    decreases lines.len() + pending.len(),
{
    let steps = steps_of(lines, pending);
    let before = steps.take(at);
    let i = lines_in(before).len() as int;
    if aside_is_next(lines, pending) {
        let rest = pending.drop_first();
        assert(steps.drop_first() =~= steps_of(lines, rest));
        assert(before.drop_first() =~= steps_of(lines, rest).take(at - 1));
        assert(asides_in(before).len() == 1 + asides_in(before.drop_first()).len());
        assert forall|m: int, n: int| 0 <= m <= n < rest.len() implies (
        #[trigger] rest[m]).asked_at.at_or_before((#[trigger] rest[n]).asked_at) by {
            assert(pending[m + 1].asked_at.at_or_before(pending[n + 1].asked_at));
        }
        if lines.len() == 0 {
            assert(lines =~= seq![]);
            lemma_steps_without_lines(rest, at - 1);
        } else if k == 0 {
            assert(btw::due(pending[0].asked_at, lines[0].at, false));
        } else {
            asides_go_out_where_they_were_asked(lines, rest, at - 1, k - 1);
        }
    } else {
        assert(lines.len() > 0);
        let rest = lines.drop_first();
        assert(!btw::due(pending[k].asked_at, lines[0].at, false)) by {
            assert(pending[0].asked_at.at_or_before(pending[k].asked_at));
        }
        if at == 0 {
            assert(before =~= seq![]);
        } else {
            assert(steps.drop_first() =~= steps_of(rest, pending));
            assert(before.drop_first() =~= steps_of(rest, pending).take(at - 1));
            asides_go_out_where_they_were_asked(rest, pending, at - 1, k);
            if due_by_line(pending[k], rest, i - 1) {
                let j = choose|j: int|
                    0 <= j <= i - 1 && j < rest.len() && btw::due(
                        pending[k].asked_at,
                        (#[trigger] rest[j]).at,
                        false,
                    );
                assert(lines[j + 1] == rest[j]);
            }
            if due_by_line(pending[k], lines, i) {
                let j = choose|j: int|
                    0 <= j <= i && j < lines.len() && btw::due(
                        pending[k].asked_at,
                        (#[trigger] lines[j]).at,
                        false,
                    );
                assert(rest[j - 1] == lines[j]);
            }
        }
    }
}

proof fn lemma_steps_without_lines(pending: Seq<BtwEntry>, at: int)
    requires
        0 <= at < steps_of(Seq::empty(), pending).len(),
    ensures
        steps_of(Seq::empty(), pending)[at] is Btw,
    decreases pending.len(),
{
    if at > 0 {
        lemma_steps_without_lines(pending.drop_first(), at - 1);
    }
}

/// The asides of a replay of a log are in the order of asking, so that each goes
/// out where it was asked; and each of them succeeded. A replay of lines that
/// are not historical has none.
pub proof fn planned_asides_are_in_order<
    T: Fn(&str) -> Option<i64>,
    P: Fn(&str) -> Option<BtwEntry>,
    W: Fn(&Vec<&str>) -> Vec<(i64, i64)>,
>(
    timestamp_of: T,
    parse: P,
    windows_of: W,
    log: &str,
    history: Seq<char>,
    prepared: PreparedReplay,
    planned: SessionReplay,
    entry: BtwEntry,
)
    requires
        replays_log(timestamp_of, parse, windows_of, log, history, prepared, planned),
    ensures
        btw::in_order_of_asking(planned.run.pending()),
        planned.run.pending().contains(entry) ==> planned.mark_replay && btw::succeeded(entry),
{
    if prepared.mark_replay {
        btw::restored_asides_are_in_order(
            parse,
            windows_of,
            history,
            log@,
            planned.run.pending(),
            entry,
        );
    }
}

/// A cursor that is not found replays as no cursor does: where whatever `prepare`
/// may make of the log after it, it may make of the log without one, a replay
/// after the cursor is one that a client without a cursor may get.
pub proof fn a_lost_cursor_replays_as_none<
    R: Fn(&str, Option<&str>) -> PreparedReplay,
    T: Fn(&str) -> Option<i64>,
    P: Fn(&str) -> Option<BtwEntry>,
    W: Fn(&Vec<&str>) -> Vec<(i64, i64)>,
>(
    prepare: R,
    timestamp_of: T,
    parse: P,
    windows_of: W,
    log: &str,
    cursor: &str,
    history: Seq<char>,
    planned: SessionReplay,
)
    requires
        forall|prepared: PreparedReplay| #[trigger]
            call_ensures(prepare, (log, Some(cursor)), prepared) ==> call_ensures(
                prepare,
                (log, None),
                prepared,
            ),
        planned_from(
            prepare,
            timestamp_of,
            parse,
            windows_of,
            log,
            Some(cursor),
            history,
            planned,
        ),
    ensures
        planned_from(prepare, timestamp_of, parse, windows_of, log, None, history, planned),
{
}

/// Whether `timestamp_of` finds one timestamp in one text.
pub open spec fn times_one_way<T: Fn(&str) -> Option<i64>>(timestamp_of: T) -> bool {
    forall|a: &str, b: &str, x: Option<i64>, y: Option<i64>|
        a@ == b@ && #[trigger] call_ensures(timestamp_of, (a,), x) && #[trigger] call_ensures(
            timestamp_of,
            (b,),
            y,
        ) ==> x == y
}

/// Whether `prepare` makes the log `log` ready in the same way after the one
/// cursor as after the other.
pub open spec fn prepares_alike<R: Fn(&str, Option<&str>) -> PreparedReplay>(
    prepare: R,
    log: &str,
    cursor: Option<&str>,
    other: Option<&str>,
) -> bool {
    forall|x: PreparedReplay, y: PreparedReplay| #[trigger]
        call_ensures(prepare, (log, cursor), x) && #[trigger] call_ensures(
            prepare,
            (log, other),
            y,
        ) ==> x == y
}

/// Whether two plans are of the same replay: the same lines and asides, and so
/// the same steps, with the same marks; and the same said of the log.
pub open spec fn same_replay(a: SessionReplay, b: SessionReplay) -> bool {
    &&& a.run.lines() == b.run.lines()
    &&& a.run.pending() == b.run.pending()
    &&& a.run.steps() == b.run.steps()
    &&& a.mark_replay == b.mark_replay
    &&& a.max_event_seq == b.max_event_seq
    &&& a.last_tokens == b.last_tokens
    &&& a.end_offset == b.end_offset
    &&& a.unfinished_subagents == b.unfinished_subagents
}

/// The cursor decides nothing but how the log is made ready: after two cursors,
/// or one and none, for which that is done in the same way, the replay is the
/// same, if one text is always read in one way. So a cursor that is not found
/// gets the full replay that a client without one gets.
pub proof fn cursors_prepared_alike_replay_alike<
    R: Fn(&str, Option<&str>) -> PreparedReplay,
    T: Fn(&str) -> Option<i64>,
    P: Fn(&str) -> Option<BtwEntry>,
    W: Fn(&Vec<&str>) -> Vec<(i64, i64)>,
>(
    prepare: R,
    timestamp_of: T,
    parse: P,
    windows_of: W,
    log: &str,
    cursor: Option<&str>,
    other: Option<&str>,
    history: Seq<char>,
    planned: SessionReplay,
    planned_other: SessionReplay,
)
    requires
        prepares_alike(prepare, log, cursor, other),
        times_one_way(timestamp_of),
        btw::parses_one_way(parse),
        btw::finds_windows_one_way(windows_of),
        planned_from(
            prepare,
            timestamp_of,
            parse,
            windows_of,
            log,
            cursor,
            history,
            planned,
        ),
        planned_from(
            prepare,
            timestamp_of,
            parse,
            windows_of,
            log,
            other,
            history,
            planned_other,
        ),
    ensures
        same_replay(planned, planned_other),
{
    let prepared = choose|prepared: PreparedReplay|
        {
            &&& #[trigger] call_ensures(prepare, (log, cursor), prepared)
            &&& replays_log(timestamp_of, parse, windows_of, log, history, prepared, planned)
        };
    let lines = planned.run.lines();
    let lines_other = planned_other.run.lines();
    assert(replays_log(
        timestamp_of,
        parse,
        windows_of,
        log,
        history,
        prepared,
        planned_other,
    ));
    assert forall|i: int| 0 <= i < lines.len() implies lines[i] == lines_other[i] by {
        assert(timed_as(timestamp_of, prepared.lines@[i]@, lines[i].at));
        assert(timed_as(timestamp_of, prepared.lines@[i]@, lines_other[i].at));
    }
    assert(lines =~= lines_other);
    if prepared.mark_replay {
        btw::asides_are_restored_one_way(
            parse,
            windows_of,
            history,
            log@,
            planned.run.pending(),
            planned_other.run.pending(),
        );
    }
}

/// A line goes out as one notification at most.
pub proof fn a_line_goes_out_once_at_most<
    S,
    P: Fn(&str) -> Option<RawLinePeek>,
    F: Fn(&str) -> Refit,
    C: Fn(S, agent_client_protocol::SessionUpdate) -> (
        S,
        Option<agent_client_protocol::SessionUpdate>,
    ),
>(
    peek: P,
    refit: F,
    collapse: C,
    lines: Seq<String>,
    marks: Stamps,
    collapser: S,
    collapser_after: S,
    sent: Seq<NotificationView>,
)
    requires
        lines_sent(peek, refit, collapse, lines, marks, collapser, collapser_after, sent),
    ensures
        sent.len() <= lines.len(),
{
    let (collapsers, outcomes) = choose|
        collapsers: Seq<S>,
        outcomes: Seq<Option<NotificationView>>,
    |
        {
            &&& #[trigger] line_by_line_sent(
                peek,
                refit,
                collapse,
                lines,
                marks,
                collapsers,
                outcomes,
            )
            &&& collapsers.first() == collapser
            &&& collapsers.last() == collapser_after
            &&& sent == all_sent(outcomes)
        };
    lemma_all_sent_is_no_longer(outcomes);
}

proof fn lemma_all_sent_is_no_longer(outcomes: Seq<Option<NotificationView>>)
    ensures
        all_sent(outcomes).len() <= outcomes.len(),
    decreases outcomes.len(),
{
    reveal(Seq::filter_map);
    if outcomes.len() > 0 {
        lemma_all_sent_is_no_longer(outcomes.drop_last());
    }
}

proof fn lemma_steps_of_lines_alone(lines: Seq<TimedLine>)
    ensures
        steps_of(lines, Seq::empty()).len() == lines.len(),
        forall|i: int|
            0 <= i < lines.len() ==> #[trigger] steps_of(lines, Seq::empty())[i]
                == ReplayStep::Line(lines[i].text),
    decreases lines.len(),
{
    if lines.len() > 0 {
        let rest = lines.drop_first();
        lemma_steps_of_lines_alone(rest);
        assert forall|i: int| 0 <= i < lines.len() implies #[trigger] steps_of(
            lines,
            Seq::empty(),
        )[i] == ReplayStep::Line(lines[i].text) by {
            if i > 0 {
                assert(steps_of(rest, Seq::empty())[i - 1] == ReplayStep::Line(rest[i - 1].text));
            }
        }
    }
}

proof fn lemma_steps_of_asides_alone(pending: Seq<BtwEntry>)
    ensures
        steps_of(Seq::empty(), pending).len() == pending.len(),
        forall|i: int|
            0 <= i < pending.len() ==> #[trigger] steps_of(Seq::empty(), pending)[i]
                == ReplayStep::Btw(pending[i]),
    decreases pending.len(),
{
    if pending.len() > 0 {
        let rest = pending.drop_first();
        lemma_steps_of_asides_alone(rest);
        assert forall|i: int| 0 <= i < pending.len() implies #[trigger] steps_of(
            Seq::empty(),
            pending,
        )[i] == ReplayStep::Btw(pending[i]) by {
            if i > 0 {
                assert(steps_of(Seq::empty(), rest)[i - 1] == ReplayStep::Btw(rest[i - 1]));
            }
        }
    }
}

/// A run takes a step for each of its lines and each of its asides, and no
/// other: the lines come in their order, and the asides in theirs.
pub proof fn a_run_takes_a_step_for_each_line_and_aside(run: ReplayRun)
    ensures
        run.steps().len() == run.lines().len() + run.pending().len(),
        asides_in(run.steps()) == run.pending(),
        lines_in(run.steps()).len() == run.lines().len(),
        forall|i: int|
            0 <= i < run.lines().len() ==> #[trigger] lines_in(run.steps())[i]
                == run.lines()[i].text,
{
    replay_forwards_everything_once_in_order(run.lines(), run.pending());
}

/// The plan of a replay holds every line that the log was made ready with, its
/// text as it stands and in its place, with the timestamp that is found in it,
/// whether or not a cursor was found; and it says of the log what was found when
/// it was made ready. Where the lines are not historical there is no aside: the
/// steps are those lines, all of them. Where they are, the asides are those that
/// rewinds left.
pub proof fn a_plan_holds_all_that_was_made_ready<
    R: Fn(&str, Option<&str>) -> PreparedReplay,
    T: Fn(&str) -> Option<i64>,
    P: Fn(&str) -> Option<BtwEntry>,
    W: Fn(&Vec<&str>) -> Vec<(i64, i64)>,
>(
    prepare: R,
    timestamp_of: T,
    parse: P,
    windows_of: W,
    log: &str,
    cursor: Option<&str>,
    history: Seq<char>,
    planned: SessionReplay,
)
    requires
        planned_from(
            prepare,
            timestamp_of,
            parse,
            windows_of,
            log,
            cursor,
            history,
            planned,
        ),
    ensures
        exists|prepared: PreparedReplay|
            {
                &&& #[trigger] call_ensures(prepare, (log, cursor), prepared)
                &&& planned.run.lines().len() == prepared.lines.len()
                &&& forall|i: int|
                    0 <= i < prepared.lines.len() ==> {
                        &&& (#[trigger] planned.run.lines()[i]).text == prepared.lines@[i]
                        &&& exists|slice: &str|
                            slice@ == prepared.lines@[i]@ && #[trigger] call_ensures(
                                timestamp_of,
                                (slice,),
                                planned.run.lines()[i].at,
                            )
                    }
                &&& lines_in(planned.run.steps()) == prepared.lines@
                &&& asides_in(planned.run.steps()) == planned.run.pending()
                &&& !prepared.mark_replay ==> {
                    &&& planned.run.pending().len() == 0
                    &&& planned.run.steps().len() == prepared.lines.len()
                    &&& forall|i: int|
                        0 <= i < prepared.lines.len() ==> #[trigger] planned.run.steps()[i]
                            == ReplayStep::Line(prepared.lines@[i])
                }
                &&& prepared.mark_replay ==> btw::restored_from(
                    parse,
                    windows_of,
                    history,
                    log@,
                    planned.run.pending(),
                )
                &&& planned.mark_replay == prepared.mark_replay
                &&& planned.max_event_seq == prepared.max_event_seq
                &&& planned.last_tokens == prepared.last_tokens
                &&& planned.unfinished_subagents == prepared.unfinished_subagents
                &&& planned.end_offset == log.len() as u64
            },
{
    let prepared = choose|prepared: PreparedReplay|
        {
            &&& #[trigger] call_ensures(prepare, (log, cursor), prepared)
            &&& replays_log(timestamp_of, parse, windows_of, log, history, prepared, planned)
        };
    let lines = planned.run.lines();
    assert forall|i: int| 0 <= i < prepared.lines.len() implies {
        &&& (#[trigger] lines[i]).text == prepared.lines@[i]
        &&& exists|slice: &str|
            slice@ == prepared.lines@[i]@ && #[trigger] call_ensures(
                timestamp_of,
                (slice,),
                lines[i].at,
            )
    } by {
        assert(timed_as(timestamp_of, prepared.lines@[i]@, lines[i].at));
    }
    replay_forwards_everything_once_in_order(lines, planned.run.pending());
    assert(texts(lines) =~= prepared.lines@);
    if !prepared.mark_replay {
        assert(planned.run.pending() =~= Seq::empty());
        lemma_steps_of_lines_alone(lines);
        assert forall|i: int| 0 <= i < prepared.lines.len() implies #[trigger] planned.run.steps()[i]
            == ReplayStep::Line(prepared.lines@[i]) by {
            assert(lines[i].text == prepared.lines@[i]);
        }
    }
    assert(call_ensures(prepare, (log, cursor), prepared));
}

/// In a replay of a log, each aside goes out before the first line that was
/// recorded in the second of asking or later, and not before an earlier one; and
/// after all lines, where no such line was recorded. `at` is the place of a line
/// among the steps, and `k` counts the asides.
pub proof fn a_plan_puts_each_aside_where_it_was_asked<
    R: Fn(&str, Option<&str>) -> PreparedReplay,
    T: Fn(&str) -> Option<i64>,
    P: Fn(&str) -> Option<BtwEntry>,
    W: Fn(&Vec<&str>) -> Vec<(i64, i64)>,
>(
    prepare: R,
    timestamp_of: T,
    parse: P,
    windows_of: W,
    log: &str,
    cursor: Option<&str>,
    history: Seq<char>,
    planned: SessionReplay,
    at: int,
    k: int,
)
    requires
        planned_from(
            prepare,
            timestamp_of,
            parse,
            windows_of,
            log,
            cursor,
            history,
            planned,
        ),
        0 <= at < planned.run.steps().len(),
        planned.run.steps()[at] is Line,
        0 <= k < planned.run.pending().len(),
    ensures
        ({
            let before = planned.run.steps().take(at);
            let lines = planned.run.lines();
            k < asides_in(before).len() <==> exists|j: int|
                {
                    &&& 0 <= j <= lines_in(before).len()
                    &&& j < lines.len()
                    &&& (#[trigger] lines[j]).at is Some
                    &&& planned.run.pending()[k].asked_at.second() <= lines[j].at->0
                }
        }),
{
    let prepared = choose|prepared: PreparedReplay|
        {
            &&& #[trigger] call_ensures(prepare, (log, cursor), prepared)
            &&& replays_log(timestamp_of, parse, windows_of, log, history, prepared, planned)
        };
    let lines = planned.run.lines();
    let pending = planned.run.pending();
    planned_asides_are_in_order(
        timestamp_of,
        parse,
        windows_of,
        log,
        history,
        prepared,
        planned,
        pending[k],
    );
    asides_go_out_where_they_were_asked(lines, pending, at, k);
    btw::an_aside_is_due_from_its_second_on(pending[k].asked_at);
    let i = lines_in(planned.run.steps().take(at)).len() as int;
    if due_by_line(pending[k], lines, i) {
        let j = choose|j: int|
            0 <= j <= i && j < lines.len() && btw::due(
                pending[k].asked_at,
                (#[trigger] lines[j]).at,
                false,
            );
        assert(lines[j].at is Some);
    }
}

/// Without a log, the steps of a replay are its asides, all of them and in their
/// order, and nothing is said of a log.
pub proof fn a_replay_without_a_log_is_its_asides(
    planned: SessionReplay,
    entries: Seq<BtwEntry>,
)
    requires
        only_asides(planned, entries),
    ensures
        planned.run.steps().len() == entries.len(),
        forall|i: int|
            0 <= i < entries.len() ==> #[trigger] planned.run.steps()[i] == ReplayStep::Btw(
                entries[i],
            ),
        planned.run.lines().len() == 0,
        planned.max_event_seq is None,
        planned.last_tokens == 0,
        planned.end_offset == 0,
        planned.unfinished_subagents.len() == 0,
{
    lemma_steps_of_asides_alone(entries);
}

/// What is sent leaves nothing out: it says of each notification what the
/// notification says.
pub proof fn notifications_are_told_one_by_one(sent: Seq<Notification>)
    ensures
        all_sent_view(sent).len() == sent.len(),
        forall|i: int| 0 <= i < sent.len() ==> #[trigger] all_sent_view(sent)[i] == sent[i]@,
{
}

pub(crate) proof fn lemma_sent_places(outcomes: Seq<Option<NotificationView>>) -> (places: Seq<
    int,
>)
    ensures
        text::increasing_places(places, outcomes.len() as int),
        places.len() == all_sent(outcomes).len(),
        forall|k: int|
            0 <= k < places.len() ==> outcomes[#[trigger] places[k]] == Some(
                all_sent(outcomes)[k],
            ),
        forall|i: int| #[trigger]
            places.contains(i) <==> 0 <= i < outcomes.len() && outcomes[i] is Some,
    decreases outcomes.len(),
{
    reveal(Seq::filter_map);
    if outcomes.len() == 0 {
        seq![]
    } else {
        let front = outcomes.drop_last();
        let places = lemma_sent_places(front);
        let n = outcomes.len() - 1;
        if let Some(notification) = outcomes.last() {
            let all = places.push(n);
            assert(all_sent(outcomes) =~= all_sent(front).push(notification));
            assert forall|i: int| #[trigger] all.contains(i) <==> 0 <= i < outcomes.len()
                && outcomes[i] is Some by {
                if i == n {
                    assert(all[places.len() as int] == n);
                } else if places.contains(i) {
                    let k = choose|k: int| 0 <= k < places.len() && places[k] == i;
                    assert(all[k] == i);
                } else if all.contains(i) {
                    let k = choose|k: int| 0 <= k < all.len() && all[k] == i;
                    assert(places[k] == i);
                }
            }
            assert forall|k: int| 0 <= k < all.len() implies outcomes[#[trigger] all[k]] == Some(
                all_sent(outcomes)[k],
            ) by {
                if k < places.len() {
                    assert(all[k] == places[k]);
                }
            }
            all
        } else {
            assert(all_sent(outcomes) =~= all_sent(front));
            places
        }
    }
}

/// Whether `sent` are the notifications among `outcomes`, all of them and in
/// their order.
pub open spec fn sent_of(
    outcomes: Seq<Option<NotificationView>>,
    sent: Seq<NotificationView>,
) -> bool {
    exists|places: Seq<int>|
        {
            &&& #[trigger] text::increasing_places(places, outcomes.len() as int)
            &&& places.len() == sent.len()
            &&& forall|k: int|
                0 <= k < places.len() ==> outcomes[#[trigger] places[k]] == Some(sent[k])
            &&& forall|i: int| #[trigger]
                places.contains(i) <==> 0 <= i < outcomes.len() && outcomes[i] is Some
        }
}

/// What is sent of lines is, line by line, what forwarding each of them alone
/// gives, with the same arguments and with the collapser as the lines before left
/// it; and each session notification among it has the marks on it that were asked
/// for.
pub proof fn lines_go_out_as_each_does_alone<
    S,
    P: Fn(&str) -> Option<RawLinePeek>,
    F: Fn(&str) -> Refit,
    C: Fn(S, agent_client_protocol::SessionUpdate) -> (
        S,
        Option<agent_client_protocol::SessionUpdate>,
    ),
>(
    peek: P,
    refit: F,
    collapse: C,
    lines: Seq<String>,
    persist_data: Option<&Json>,
    target_client_id: Option<&Json>,
    mark_replay: bool,
    collapser: S,
    collapser_after: S,
    sent: Seq<NotificationView>,
)
    requires
        lines_sent(
            peek,
            refit,
            collapse,
            lines,
            forward::stamps(persist_data, target_client_id, mark_replay),
            collapser,
            collapser_after,
            sent,
        ),
    ensures
        exists|collapsers: Seq<S>, outcomes: Seq<Option<NotificationView>>|
            {
                &&& collapsers.len() == lines.len() + 1
                &&& outcomes.len() == lines.len()
                &&& #[trigger] collapsers[0] == collapser
                &&& collapsers[lines.len() as int] == collapser_after
                &&& forall|i: int|
                    0 <= i < lines.len() ==> forward::line_sent(
                        peek,
                        refit,
                        collapse,
                        lines[i]@,
                        forward::stamps(persist_data, target_client_id, mark_replay),
                        collapsers[i],
                        collapsers[i + 1],
                        #[trigger] outcomes[i],
                    )
                &&& #[trigger] sent_of(outcomes, sent)
            },
        forall|k: int|
            0 <= k < sent.len() ==> forward::has_marks_if_session(
                #[trigger] sent[k],
                persist_data,
                target_client_id,
                mark_replay,
            ),
{
    let marks = forward::stamps(persist_data, target_client_id, mark_replay);
    let (collapsers, outcomes) = choose|
        collapsers: Seq<S>,
        outcomes: Seq<Option<NotificationView>>,
    |
        {
            &&& #[trigger] line_by_line_sent(
                peek,
                refit,
                collapse,
                lines,
                marks,
                collapsers,
                outcomes,
            )
            &&& collapsers.first() == collapser
            &&& collapsers.last() == collapser_after
            &&& sent == all_sent(outcomes)
        };
    let places = lemma_sent_places(outcomes);
    assert(sent_of(outcomes, sent));
    assert(collapsers[0] == collapser);
    assert forall|k: int| 0 <= k < sent.len() implies forward::has_marks_if_session(
        #[trigger] sent[k],
        persist_data,
        target_client_id,
        mark_replay,
    ) by {
        let i = places[k];
        assert(outcomes[i] == Some(sent[k]));
        forward::every_session_notice_has_its_marks(
            peek,
            refit,
            collapse,
            lines[i]@,
            persist_data,
            target_client_id,
            mark_replay,
            collapsers[i],
            collapsers[i + 1],
            outcomes[i],
        );
    }
}

/// A step that forwards a line goes out as forwarding that line alone does, with
/// the same arguments. A step that forwards an aside goes out as an extension
/// notification that tells the aside whole, and the collapser does not see it.
pub proof fn a_step_goes_out_as_its_line_or_aside<
    S,
    P: Fn(&str) -> Option<RawLinePeek>,
    F: Fn(&str) -> Refit,
    C: Fn(S, agent_client_protocol::SessionUpdate) -> (
        S,
        Option<agent_client_protocol::SessionUpdate>,
    ),
>(
    peek: P,
    refit: F,
    collapse: C,
    session_id: Seq<char>,
    step: ReplayStep,
    persist_data: Option<&Json>,
    target_client_id: Option<&Json>,
    mark_replay: bool,
    collapser: S,
    collapser_after: S,
    sent: Option<NotificationView>,
)
    requires
        step_sent(
            peek,
            refit,
            collapse,
            session_id,
            step,
            forward::stamps(persist_data, target_client_id, mark_replay),
            collapser,
            collapser_after,
            sent,
        ),
    ensures
        match step {
            ReplayStep::Line(line) => forward::line_sent(
                peek,
                refit,
                collapse,
                line@,
                forward::stamps(persist_data, target_client_id, mark_replay),
                collapser,
                collapser_after,
                sent,
            ),
            ReplayStep::Btw(entry) => {
                &&& collapser_after == collapser
                &&& exists|params: Tree|
                    {
                        &&& #[trigger] forward::tells_aside(
                            params,
                            session_id,
                            entry,
                            persist_data,
                            target_client_id,
                        )
                        &&& sent == Some(
                            (NotificationView::Ext {
                                method: "x.ai/session/update"@,
                                params: json::json_text(params),
                            }),
                        )
                    }
            },
        },
        sent matches Some(notification) ==> forward::has_marks_if_session(
            notification,
            persist_data,
            target_client_id,
            mark_replay,
        ),
{
    match step {
        ReplayStep::Line(line) => {
            forward::every_session_notice_has_its_marks(
                peek,
                refit,
                collapse,
                line@,
                persist_data,
                target_client_id,
                mark_replay,
                collapser,
                collapser_after,
                sent,
            );
        },
        ReplayStep::Btw(entry) => {
            forward::an_aside_is_told_whole(session_id, entry, persist_data, target_client_id);
        },
    }
}

} // verus!
