//! Whole replays, run from event to action.

use agent_client_protocol::SessionUpdate;
use session_replay::btw::BtwEntry;
use session_replay::drain::REPLAY_COMPLETION_WINDOW;
use session_replay::driver::{ReplayAction, ReplayDriver, ReplayEvent};
use session_replay::forward::{Notification, RawLinePeek, Refit};
use session_replay::replay::{ReplayRun, TimedLine};
use session_replay::time::UtcInstant;

fn aside(question: &str, asked: i64) -> BtwEntry {
    BtwEntry {
        btw_session_id: "btw-1".to_string(),
        parent_session_id: "s".to_string(),
        asked_at: UtcInstant::new(asked, 0).unwrap(),
        question: question.to_string(),
        answer: "a".to_string(),
        model: "grok".to_string(),
        success: true,
        error: None,
        attempts: 1,
    }
}

/// Recorded under the method of the extension, but for lines that name a session.
fn peek(line: &str) -> Option<RawLinePeek> {
    let method = if line.contains("sessionId") {
        "session/update"
    } else {
        "_x.ai/session/update"
    };
    Some(RawLinePeek {
        method: Some(method.to_string()),
        params: Some(line.to_string()),
    })
}

fn refit(_: &str) -> Refit {
    Refit::Unchanged
}

/// Lets every second update through.
fn collapse(seen: u32, update: SessionUpdate) -> (u32, Option<SessionUpdate>) {
    (seen + 1, (seen % 2 == 0).then_some(update))
}

fn lines(texts: Vec<String>) -> Vec<TimedLine> {
    texts
        .into_iter()
        .zip(0..)
        .map(|(text, at)| TimedLine { text, at: Some(at) })
        .collect()
}

/// What a replay sent, what it had awaited, and the most receivers that were
/// handed in and not awaited when a notification was sent. The receiver of a
/// notification is its number.
fn run_through(run: ReplayRun) -> (Vec<String>, Vec<usize>, usize) {
    let mut driver = ReplayDriver::new(run, 0);
    let mut event = ReplayEvent::Ready;
    let mut sent = Vec::new();
    let mut awaited: Vec<usize> = Vec::new();
    let mut most_held = 0;
    loop {
        let (driver_after, action) = driver.advance(
            event, "s", None, None, false, &peek, &refit, &collapse,
        );
        driver = driver_after;
        event = ReplayEvent::Ready;
        match action {
            ReplayAction::Send(notification) => {
                most_held = most_held.max(sent.len() - awaited.len());
                event = ReplayEvent::Sent(sent.len());
                sent.push(match notification {
                    Notification::Ext { params, .. } => params,
                    Notification::Session(notice) => format!("session {}", notice.session_id),
                });
            }
            ReplayAction::Proceed => {}
            ReplayAction::AwaitOldest(rx) => awaited.push(rx),
            ReplayAction::AwaitRest(rest) => awaited.extend(rest),
            ReplayAction::Done => {
                assert_eq!(driver.forwarded(), sent.len());
                return (sent, awaited, most_held);
            }
        }
    }
}

#[test]
fn everything_sent_is_awaited_within_the_window() {
    let texts: Vec<String> = (0..200).map(|n| format!("[{n}]")).collect();
    let (sent, awaited, most_held) = run_through(ReplayRun::new(lines(texts.clone()), vec![]));
    assert_eq!(sent, texts);
    assert_eq!(awaited, (0..200).collect::<Vec<_>>());
    assert_eq!(most_held, REPLAY_COMPLETION_WINDOW);
}

#[test]
fn a_short_replay_is_awaited_in_the_end() {
    let (sent, awaited, _) = run_through(ReplayRun::new(
        lines(vec!["[1]".to_string(), "not json".to_string()]),
        vec![],
    ));
    assert_eq!(sent, ["[1]"]);
    assert_eq!(awaited, [0]);
}

#[test]
fn an_empty_replay_is_done_at_once() {
    let driver: ReplayDriver<u32, usize> = ReplayDriver::new(ReplayRun::new(vec![], vec![]), 0);
    let (_, action) = driver.advance(
        ReplayEvent::Ready, "s", None, None, false, &peek, &refit, &collapse,
    );
    assert!(matches!(action, ReplayAction::Done));
}

#[test]
fn one_collapser_is_handed_on_from_line_to_line() {
    let update = |session: &str| {
        format!(
            r#"{{"sessionId":"{session}","update":{{"sessionUpdate":"agent_message_chunk","content":{{"type":"text","text":"t"}}}}}}"#
        )
    };
    let texts = vec![
        update("first"),
        "[1]".to_string(),
        update("second"),
        update("third"),
    ];
    let (sent, awaited, _) = run_through(ReplayRun::new(lines(texts), vec![aside("q", 1)]));
    assert_eq!(sent.len(), 4);
    assert_eq!(sent[0], "session first");
    assert!(sent[1].contains(r#""question":"q""#));
    assert_eq!(sent[2], "[1]");
    assert_eq!(sent[3], "session third");
    assert_eq!(awaited, [0, 1, 2, 3]);
}

#[test]
fn the_oldest_leaves_when_the_window_is_full() {
    let mut driver: ReplayDriver<u32, usize> = ReplayDriver::new(ReplayRun::new(vec![], vec![]), 0);
    for n in 0..REPLAY_COMPLETION_WINDOW + 2 {
        let (after, action) = driver.advance(
            ReplayEvent::Sent(n), "s", None, None, false, &peek, &refit, &collapse,
        );
        driver = after;
        if n < REPLAY_COMPLETION_WINDOW {
            assert!(matches!(action, ReplayAction::Proceed));
        } else {
            match action {
                ReplayAction::AwaitOldest(oldest) => {
                    assert_eq!(oldest, n - REPLAY_COMPLETION_WINDOW)
                }
                other => panic!("unexpected {other:?}"),
            }
        }
    }
    let (_, action) = driver.advance(
        ReplayEvent::Ready, "s", None, None, false, &peek, &refit, &collapse,
    );
    match action {
        ReplayAction::AwaitRest(rest) => assert_eq!(
            rest.into_iter().collect::<Vec<_>>(),
            (2..REPLAY_COMPLETION_WINDOW + 2).collect::<Vec<_>>()
        ),
        other => panic!("unexpected {other:?}"),
    }
}
