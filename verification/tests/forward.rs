//! What lines and asides are forwarded as.

use agent_client_protocol::{ContentBlock, SessionUpdate};
use session_replay::btw::BtwEntry;
use session_replay::forward::{
    fitted_replay_params, forward_raw_replay_line, forward_replay_btw, mark_as_replay,
    read_session_notice, route_line, seal_session_notice, stamp_meta_value, stamp_params,
    LineRoute, Notification, RawLinePeek, Refit,
};
use session_replay::json::{Json, JsonObject};
use session_replay::time::UtcInstant;

const SESSION_PARAMS: &str = r#"{"sessionId":"s","update":{"sessionUpdate":"agent_message_chunk","content":{"type":"text","text":"hi"}},"_meta":{"eventId":"7"}}"#;

fn json(text: &str) -> Json {
    Json::parse(text).unwrap()
}

fn peek(line: &str) -> Option<RawLinePeek> {
    let value: serde_json::Value = serde_json::from_str(line).ok()?;
    Some(RawLinePeek {
        method: value.get("method").map(|m| m.as_str().unwrap().to_string()),
        params: value.get("params").map(|p| p.to_string()),
    })
}

fn surface(method: Option<&str>, params: Option<&str>) -> Option<RawLinePeek> {
    Some(RawLinePeek {
        method: method.map(str::to_string),
        params: params.map(str::to_string),
    })
}

fn ext_route(params: &str, persist: Option<&Json>, target: Option<&Json>, mark: bool) -> String {
    match route_line(
        surface(Some("_x.ai/session/update"), Some(params)),
        persist,
        target,
        mark,
    ) {
        LineRoute::Ext(text) => text,
        other => panic!("expected an extension route, got {other:?}"),
    }
}

fn chunk_text(update: &SessionUpdate) -> &str {
    match update {
        SessionUpdate::AgentMessageChunk(chunk) => match &chunk.content {
            ContentBlock::Text(text) => &text.text,
            other => panic!("unexpected {other:?}"),
        },
        other => panic!("unexpected {other:?}"),
    }
}

fn meta_text(meta: Option<JsonObject>) -> Option<String> {
    meta.map(|object| Json::Object(object).render().unwrap())
}

#[test]
fn without_marks_the_recorded_text_goes_out() {
    let text = "  { \"b\" : 1.50, \"a\":{} } \n";
    assert_eq!(ext_route(text, None, None, false), "{ \"b\" : 1.50, \"a\":{} }");
    let persist = json("1");
    assert_eq!(ext_route(" [1, 2]", Some(&persist), None, false), "[1, 2]");
}

#[test]
fn marks_go_into_new_metadata() {
    let persist = json(r#"{"dir":"d"}"#);
    let target = json("3");
    assert_eq!(
        ext_route(r#"{"b":1,"a":2}"#, Some(&persist), Some(&target), true),
        r#"{"_meta":{"isReplay":true,"x.ai/leaderClientId":3,"x.ai/persist":{"dir":"d"}},"a":2,"b":1}"#
    );
}

#[test]
fn marks_go_into_the_metadata_that_is_there() {
    let target = json("\"c\"");
    assert_eq!(
        ext_route(
            r#"{"_meta":{"isReplay":false,"eventId":"9"}}"#,
            None,
            Some(&target),
            false
        ),
        r#"{"_meta":{"eventId":"9","isReplay":false,"x.ai/leaderClientId":"c"}}"#
    );
    assert_eq!(
        ext_route(r#"{"_meta":{"isReplay":false}}"#, None, None, true),
        r#"{"_meta":{"isReplay":true}}"#
    );
}

#[test]
fn what_can_take_no_marks_goes_out_without() {
    let target = json("1");
    assert_eq!(ext_route("[1, 2]", None, Some(&target), true), "[1,2]");
    assert_eq!(
        ext_route(r#"{"_meta":7}"#, None, Some(&target), true),
        r#"{"_meta":7}"#
    );
}

#[test]
fn null_counts_as_no_metadata() {
    let persist = json("\"p\"");
    let target = json("1");
    assert_eq!(
        ext_route(r#"{"a":0,"_meta":null}"#, Some(&persist), Some(&target), true),
        r#"{"_meta":{"isReplay":true,"x.ai/leaderClientId":1,"x.ai/persist":"p"},"a":0}"#
    );
    assert_eq!(
        ext_route(r#"{"_meta":null}"#, None, None, true),
        r#"{"_meta":{"isReplay":true}}"#
    );
    assert_eq!(
        ext_route(r#"{"_meta":null}"#, None, Some(&target), false),
        r#"{"_meta":{"x.ai/leaderClientId":1}}"#
    );
    assert_eq!(
        ext_route(r#"{"_meta":null}"#, None, None, false),
        r#"{"_meta":null}"#
    );
}

#[test]
fn marking_twice_is_marking_once() {
    let persist = json("\"p\"");
    let once = stamp_params(json(r#"{"x":1}"#), Some(&persist), None, true);
    let twice = stamp_params(once.copy(), Some(&persist), None, true);
    assert_eq!(twice.render(), once.render());
}

#[test]
fn lines_that_cannot_be_read_are_skipped() {
    let mark = true;
    for line in [
        None,
        surface(Some("_x.ai/session/update"), None),
        surface(Some("_x.ai/session/update"), Some("{")),
        surface(Some("session/update"), Some("{}")),
        surface(Some("another/method"), Some(r#"{"a":1}"#)),
        surface(None, Some("null")),
    ] {
        assert!(matches!(route_line(line, None, None, mark), LineRoute::Skip));
    }
    assert!(matches!(
        route_line(
            surface(Some("_x.ai/session/update"), Some("{")),
            None,
            None,
            false
        ),
        LineRoute::Skip
    ));
}

#[test]
fn other_methods_count_as_session_updates() {
    for method in [None, Some("session/update"), Some("another/method")] {
        match route_line(surface(method, Some(SESSION_PARAMS)), None, None, true) {
            LineRoute::Session(notice) => {
                assert_eq!(notice.session_id, "s");
                assert_eq!(chunk_text(&notice.update), "hi");
                assert_eq!(meta_text(notice.meta).unwrap(), r#"{"eventId":"7"}"#);
            }
            other => panic!("expected a session route, got {other:?}"),
        }
    }
}

#[test]
fn session_notices_are_sealed_with_their_marks() {
    let persist = json("\"p\"");
    let target = json("4");
    let sealed = |persist: Option<&Json>, target: Option<&Json>, mark: bool| {
        let notice = read_session_notice(SESSION_PARAMS).unwrap();
        match seal_session_notice(notice, persist, target, mark) {
            Notification::Session(notice) => meta_text(notice.meta).unwrap(),
            other => panic!("unexpected {other:?}"),
        }
    };
    assert_eq!(sealed(Some(&persist), None, false), r#"{"eventId":"7"}"#);
    assert_eq!(
        sealed(Some(&persist), Some(&target), false),
        r#"{"eventId":"7","x.ai/leaderClientId":4}"#
    );
    assert_eq!(
        sealed(Some(&persist), Some(&target), true),
        r#"{"eventId":"7","isReplay":true,"x.ai/leaderClientId":4,"x.ai/persist":"p"}"#
    );
}

#[test]
fn metadata_is_made_where_it_is_missing() {
    let mut meta = None;
    mark_as_replay(&mut meta, None);
    assert_eq!(meta_text(meta).unwrap(), r#"{"isReplay":true}"#);
    let mut meta = None;
    stamp_meta_value(&mut meta, "k", &json("[]"));
    assert_eq!(meta_text(meta).unwrap(), r#"{"k":[]}"#);
}

#[test]
fn parameters_are_fitted() {
    let sent = |refit: Refit| fitted_replay_params("long".to_string(), refit);
    assert_eq!(sent(Refit::Unchanged).as_deref(), Some("long"));
    assert_eq!(sent(Refit::Fitted("l".to_string())).as_deref(), Some("l"));
    assert_eq!(sent(Refit::Unfittable), None);
}

#[test]
fn a_line_is_peeked_fitted_and_sent() {
    let line = r#"{"method":"_x.ai/session/update","params":{"a":1}}"#;
    let refit = |text: &str| Refit::Fitted(format!("<{text}>"));
    let collapse = |n: u32, update: SessionUpdate| (n + 1, Some(update));
    let (state, sent) =
        forward_raw_replay_line(line, None, None, true, 0, &peek, &refit, &collapse);
    assert_eq!(state, 0, "extension updates pass the collapser by");
    match sent {
        Some(Notification::Ext { method, params }) => {
            assert_eq!(method, "x.ai/session/update");
            assert_eq!(params, r#"<{"_meta":{"isReplay":true},"a":1}>"#);
        }
        other => panic!("unexpected {other:?}"),
    }
    let unfittable = |_: &str| Refit::Unfittable;
    let (_, sent) =
        forward_raw_replay_line(line, None, None, true, 0, &peek, &unfittable, &collapse);
    assert!(sent.is_none());
}

#[test]
fn a_session_line_goes_through_the_collapser() {
    let line = format!(r#"{{"method":"session/update","params":{SESSION_PARAMS}}}"#);
    let refit = |_: &str| Refit::Unfittable;
    let pass = |n: u32, update: SessionUpdate| (n + 1, Some(update));
    let swallow = |n: u32, _: SessionUpdate| (n + 10, None);
    let (state, sent) =
        forward_raw_replay_line(&line, None, None, true, 1, &peek, &refit, &pass);
    assert_eq!(state, 2);
    match sent {
        Some(Notification::Session(notice)) => {
            assert_eq!(notice.session_id, "s");
            assert_eq!(chunk_text(&notice.update), "hi");
            assert_eq!(
                meta_text(notice.meta).unwrap(),
                r#"{"eventId":"7","isReplay":true}"#
            );
        }
        other => panic!("unexpected {other:?}"),
    }
    let (state, sent) =
        forward_raw_replay_line(&line, None, None, true, 1, &peek, &refit, &swallow);
    assert_eq!(state, 11);
    assert!(sent.is_none());
}

#[test]
fn an_aside_is_a_historical_update_of_its_session() {
    let entry = BtwEntry {
        btw_session_id: "btw-1".to_string(),
        parent_session_id: "sess-A".to_string(),
        asked_at: UtcInstant::new(1_787_227_200, 0).unwrap(),
        question: "what is rust".to_string(),
        answer: "a **systems** language".to_string(),
        model: "grok".to_string(),
        success: true,
        error: None,
        attempts: 1,
    };
    let persist = json("{}");
    let target = json("2");
    let expected = |meta: &str| {
        format!(
            r#"{{"_meta":{meta},"sessionId":"sess-A","update":{{"answer":"a **systems** language","asked_at":"2026-08-20T12:00:00+00:00","question":"what is rust","sessionUpdate":"btw"}}}}"#
        )
    };
    match forward_replay_btw("sess-A", &entry, None, None) {
        Some(Notification::Ext { method, params }) => {
            assert_eq!(method, "x.ai/session/update");
            assert_eq!(params, expected(r#"{"isReplay":true}"#));
        }
        other => panic!("unexpected {other:?}"),
    }
    match forward_replay_btw("sess-A", &entry, Some(&persist), Some(&target)) {
        Some(Notification::Ext { params, .. }) => assert_eq!(
            params,
            expected(r#"{"isReplay":true,"x.ai/leaderClientId":2,"x.ai/persist":{}}"#)
        ),
        other => panic!("unexpected {other:?}"),
    }
}
