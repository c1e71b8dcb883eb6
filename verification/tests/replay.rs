//! Whole replays, and the replay of a log's tail.

use agent_client_protocol::SessionUpdate;
use session_replay::btw::BtwEntry;
use session_replay::forward::{Notification, RawLinePeek, Refit};
use session_replay::json::Json;
use session_replay::replay::{
    forward_step, replay_session_updates, replay_session_updates_from_offset_enqueue, time_lines,
    PreparedReplay, ReplayRun, ReplayStep, SessionReplay, TimedLine, UpdatesLog,
};
use session_replay::time::UtcInstant;

fn entry(question: &str, asked: i64) -> BtwEntry {
    BtwEntry {
        btw_session_id: "btw-1".to_string(),
        parent_session_id: "s".to_string(),
        asked_at: UtcInstant::new(asked, 0).unwrap(),
        question: question.to_string(),
        answer: "a".to_string(),
        model: "grok".to_string(),
        success: true,
        error: None,
        attempts: 1,
    }
}

/// Reads `question@second`.
fn parse(record: &str) -> Option<BtwEntry> {
    let (question, asked) = record.split_once('@')?;
    Some(entry(question, asked.parse().ok()?))
}

/// Reads the number that a line starts with.
fn timestamp_of(line: &str) -> Option<i64> {
    line.split(' ').next()?.parse().ok()
}

/// Discards the second of each line that ends in `rewound`.
fn windows_of(lines: &Vec<&str>) -> Vec<(i64, i64)> {
    lines
        .iter()
        .filter(|line| line.ends_with("rewound"))
        .filter_map(|line| timestamp_of(line))
        .map(|second| (second, second))
        .collect()
}

/// All lines are live; a cursor `n` stands for having seen `n` lines.
fn prepare(log: &str, cursor: Option<&str>) -> PreparedReplay {
    let lines: Vec<String> = log.lines().map(str::to_string).collect();
    let seen = cursor.and_then(|c| c.parse::<usize>().ok());
    PreparedReplay {
        lines: lines.into_iter().skip(seen.unwrap_or(0)).collect(),
        mark_replay: seen.is_none(),
        last_tokens: 99,
        max_event_seq: Some(41),
        unfinished_subagents: vec![("id".to_string(), "name".to_string())],
    }
}

fn plan(log: UpdatesLog<'_>, cursor: Option<&str>, history: &str) -> SessionReplay {
    replay_session_updates(
        log,
        cursor,
        history,
        prepare,
        timestamp_of,
        parse,
        windows_of,
    )
}

fn steps(mut run: ReplayRun) -> Vec<String> {
    let mut taken = Vec::new();
    while let Some(step) = run.next_step() {
        taken.push(match step {
            ReplayStep::Btw(entry) => format!("btw {}", entry.question),
            ReplayStep::Line(line) => line,
        });
    }
    taken
}

#[test]
fn asides_go_out_before_the_first_line_not_older() {
    let lines = ["10 a", "no time", "15 b", "15 c", "12 d"]
        .map(|text| TimedLine {
            text: text.to_string(),
            at: timestamp_of(text),
        })
        .into_iter()
        .collect();
    let entries = vec![
        entry("w", 9),
        entry("x", 11),
        entry("y", 15),
        entry("z", 16),
    ];
    assert_eq!(
        steps(ReplayRun::new(lines, entries)),
        ["btw w", "10 a", "no time", "btw x", "btw y", "15 b", "15 c", "12 d", "btw z"]
    );
}

#[test]
fn lines_are_given_their_timestamps() {
    let timed = time_lines(
        vec!["7 x".to_string(), "y".to_string()],
        &timestamp_of,
    );
    assert_eq!(timed[0].text, "7 x");
    assert_eq!(timed[0].at, Some(7));
    assert_eq!(timed[1].at, None);
}

#[test]
fn a_full_replay_restores_what_rewinds_left() {
    let log = "5 é\n8 rewound\n9 b";
    let planned = plan(UpdatesLog::Text(log), None, "q@9\nlost@8\np@5\n");
    assert!(planned.mark_replay);
    assert_eq!(planned.last_tokens, 99);
    assert_eq!(planned.end_offset, log.len() as u64);
    assert_eq!(planned.end_offset, 18);
    assert_eq!(planned.event_counter_floor(), Some(42));
    assert_eq!(planned.unfinished_subagents.len(), 1);
    assert_eq!(planned.run.remaining_lines(), 3);
    assert_eq!(
        steps(planned.run),
        ["btw p", "5 é", "8 rewound", "btw q", "9 b"]
    );
}

#[test]
fn a_found_cursor_brings_live_lines_and_no_asides() {
    let planned = plan(UpdatesLog::Text("5 a\n6 b"), Some("1"), "q@1");
    assert!(!planned.mark_replay);
    assert_eq!(steps(planned.run), ["6 b"]);
}

#[test]
fn a_lost_cursor_brings_everything() {
    let planned = plan(UpdatesLog::Text("5 a\n6 b"), Some("gone"), "q@1");
    assert!(planned.mark_replay);
    assert_eq!(steps(planned.run), ["btw q", "5 a", "6 b"]);
}

#[test]
fn a_lost_cursor_replays_as_no_cursor_does() {
    let log = "5 a\n8 rewound\n9 b";
    let history = "q@9\nlost@8\np@5";
    let lost = plan(UpdatesLog::Text(log), Some("gone"), history);
    let none = plan(UpdatesLog::Text(log), None, history);
    assert_eq!(lost.mark_replay, none.mark_replay);
    assert_eq!(lost.last_tokens, none.last_tokens);
    assert_eq!(lost.end_offset, none.end_offset);
    assert_eq!(lost.unfinished_subagents, none.unfinished_subagents);
    assert_eq!(lost.event_counter_floor(), none.event_counter_floor());
    let taken = steps(lost.run);
    assert_eq!(taken, ["btw p", "5 a", "8 rewound", "btw q", "9 b"]);
    assert_eq!(taken, steps(none.run));
}

#[test]
fn without_a_log_there_are_the_asides() {
    for log in [UpdatesLog::Unreadable, UpdatesLog::Text("")] {
        let planned = plan(log, None, "q@9\np@5");
        assert_eq!(planned.end_offset, 0);
        assert_eq!(planned.last_tokens, 0);
        assert_eq!(planned.event_counter_floor(), None);
        assert!(planned.unfinished_subagents.is_empty());
        assert_eq!(steps(planned.run), ["btw p", "btw q"]);
        assert!(steps(plan(log, Some("1"), "q@9").run).is_empty());
    }
    assert!(steps(plan(UpdatesLog::NoPath, None, "q@9").run).is_empty());
}

#[test]
fn the_tail_is_forwarded_line_by_line() {
    let live = |text: &str| -> Vec<String> {
        text.lines()
            .filter(|line| !line.starts_with('#'))
            .map(str::to_string)
            .collect()
    };
    let peek = |line: &str| {
        Some(RawLinePeek {
            method: Some("_x.ai/session/update".to_string()),
            params: Some(line.to_string()),
        })
    };
    let refit = |params: &str| {
        if params.len() > 20 {
            Refit::Unfittable
        } else {
            Refit::Unchanged
        }
    };
    let collapse = |state: (), update: SessionUpdate| (state, Some(update));
    let sent = |tail: Option<&str>| -> Vec<String> {
        replay_session_updates_from_offset_enqueue(
            tail, None, None, false, (), &live, &peek, &refit, &collapse,
        )
        .into_iter()
        .map(|notification| match notification {
            Notification::Ext { params, .. } => params,
            other => panic!("unexpected {other:?}"),
        })
        .collect()
    };
    assert_eq!(
        sent(Some("[1]\n#[2]\nnot json\n\"far too long to be sent\"\n[3]")),
        ["[1]", "[3]"]
    );
    assert!(sent(Some("")).is_empty());
    assert!(sent(None).is_empty());
}

#[test]
fn asides_go_out_as_historical_among_live_lines() {
    let peek = |line: &str| {
        Some(RawLinePeek {
            method: Some("_x.ai/session/update".to_string()),
            params: Some(line.to_string()),
        })
    };
    let refit = |_: &str| Refit::Unchanged;
    let collapse = |n: u32, update: SessionUpdate| (n + 1, Some(update));
    let target = Json::parse("5").unwrap();
    let sent = |step: ReplayStep| -> String {
        let (state, notification) = forward_step(
            "s",
            step,
            None,
            Some(&target),
            false,
            7,
            &peek,
            &refit,
            &collapse,
        );
        assert_eq!(state, 7);
        match notification {
            Some(Notification::Ext { method, params }) => {
                assert_eq!(method, "x.ai/session/update");
                params
            }
            other => panic!("unexpected {other:?}"),
        }
    };
    assert_eq!(
        sent(ReplayStep::Line("{}".to_string())),
        r#"{"_meta":{"x.ai/leaderClientId":5}}"#
    );
    assert_eq!(
        sent(ReplayStep::Btw(entry("q", 0))),
        r#"{"_meta":{"isReplay":true,"x.ai/leaderClientId":5},"sessionId":"s","update":{"answer":"a","asked_at":"1970-01-01T00:00:00+00:00","question":"q","sessionUpdate":"btw"}}"#
    );
}
