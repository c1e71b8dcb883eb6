//! Which asides a replay restores, and when one is due.

use chrono::{TimeZone, Utc};
use serde_json::Value;
use session_replay::btw::{
    btw_due_for_line, entries_outside, filter_btw_surviving_rewinds, load_btw_entries_for_replay,
    load_successful_btw_from_str, sort_by_asked_at, successful_entries, BtwEntry, BtwQueue,
};
use session_replay::time::UtcInstant;

fn instant(secs: i64) -> UtcInstant {
    UtcInstant::new(secs, 0).unwrap()
}

fn entry(question: &str, asked: i64) -> BtwEntry {
    BtwEntry {
        btw_session_id: "btw-1".to_string(),
        parent_session_id: "s".to_string(),
        asked_at: instant(asked),
        question: question.to_string(),
        answer: "a".to_string(),
        model: "grok".to_string(),
        success: true,
        error: None,
        attempts: 1,
    }
}

/// One record of a history, as JSON.
fn line(q: &str, a: &str, success: bool, asked: i64) -> String {
    let asked_at = Utc.timestamp_opt(asked, 0).single().unwrap().to_rfc3339();
    let mut record = serde_json::Map::new();
    record.insert("btw_session_id".to_string(), Value::from("btw-1"));
    record.insert("parent_session_id".to_string(), Value::from("s"));
    record.insert("asked_at".to_string(), Value::from(asked_at));
    record.insert("question".to_string(), Value::from(q));
    record.insert("answer".to_string(), Value::from(a));
    record.insert("model".to_string(), Value::from("grok"));
    record.insert("success".to_string(), Value::from(success));
    record.insert("error".to_string(), Value::Null);
    record.insert("attempts".to_string(), Value::from(1));
    Value::Object(record).to_string()
}

fn parse(record: &str) -> Option<BtwEntry> {
    let value: Value = serde_json::from_str(record).ok()?;
    let text = |key: &str| value.get(key)?.as_str().map(str::to_string);
    let asked = chrono::DateTime::parse_from_rfc3339(&text("asked_at")?).ok()?;
    Some(BtwEntry {
        btw_session_id: text("btw_session_id")?,
        parent_session_id: text("parent_session_id")?,
        asked_at: UtcInstant::new(asked.timestamp(), asked.timestamp_subsec_nanos())?,
        question: text("question")?,
        answer: text("answer")?,
        model: text("model")?,
        success: value.get("success")?.as_bool()?,
        error: text("error"),
        attempts: value.get("attempts")?.as_u64()? as u32,
    })
}

/// The seconds that rewinds discarded: from the prompt that a marker names up to
/// the marker.
fn windows_of(lines: &Vec<&str>) -> Vec<(i64, i64)> {
    let mut prompts: Vec<i64> = Vec::new();
    let mut windows = Vec::new();
    for text in lines {
        let value: Value = serde_json::from_str(text).unwrap();
        let at = value["timestamp"].as_i64().unwrap();
        let update = &value["params"]["update"];
        match update["sessionUpdate"].as_str() {
            Some("user_message_chunk") => prompts.push(at),
            Some("rewind_marker") => {
                let target = update["target_prompt_index"].as_u64().unwrap() as usize;
                windows.push((prompts[target], at));
                prompts.truncate(target);
            }
            _ => {}
        }
    }
    windows
}

fn questions(entries: &[BtwEntry]) -> Vec<&str> {
    entries.iter().map(|e| e.question.as_str()).collect()
}

#[test]
fn load_skips_failed_and_empty() {
    let jsonl = [
        line("ok q", "ok a", true, 10),
        line("fail q", "", true, 11),
        line("err q", "nope", false, 12),
        line("", "ans", true, 13),
        line("later", "yes", true, 14),
    ]
    .join("\n");
    let got = load_successful_btw_from_str(&jsonl, parse);
    let qs: Vec<_> = got.iter().map(|e| e.question.as_str()).collect();
    assert_eq!(qs, ["ok q", "later"]);
}

#[test]
fn load_sorts_by_asked_at() {
    let jsonl = [line("b", "2", true, 20), line("a", "1", true, 10)].join("\n");
    let got = load_successful_btw_from_str(&jsonl, parse);
    assert_eq!(got[0].question, "a");
    assert_eq!(got[1].question, "b");
}

#[test]
fn btw_due_at_or_before_line_timestamp_not_dismiss_time() {
    let asked = instant(15);
    assert!(
        !btw_due_for_line(asked, Some(10), false),
        "a later ask must wait for a later conversation event"
    );
    assert!(
        btw_due_for_line(asked, Some(15), false),
        "inject at the first event at or after the ask"
    );
    assert!(btw_due_for_line(asked, Some(20), false));
    assert!(
        !btw_due_for_line(asked, None, false),
        "unknown line time must not emit early"
    );
    assert!(btw_due_for_line(asked, None, true));
}

#[test]
fn rewind_dead_branch_btw_is_not_restored() {
    let raw = [
        r#"{"timestamp":10,"method":"session/update","params":{"sessionId":"s","update":{"sessionUpdate":"user_message_chunk","content":{"type":"text","text":"first"}}}}"#,
        r#"{"timestamp":11,"method":"session/update","params":{"sessionId":"s","update":{"sessionUpdate":"agent_message_chunk","content":{"type":"text","text":"r1"}}}}"#,
        r#"{"timestamp":20,"method":"session/update","params":{"sessionId":"s","update":{"sessionUpdate":"user_message_chunk","content":{"type":"text","text":"second"}}}}"#,
        r#"{"timestamp":21,"method":"session/update","params":{"sessionId":"s","update":{"sessionUpdate":"agent_message_chunk","content":{"type":"text","text":"r2"}}}}"#,
        r#"{"timestamp":25,"method":"_x.ai/session/update","params":{"sessionId":"s","update":{"sessionUpdate":"rewind_marker","target_prompt_index":1,"created_at":"2024-01-01"}}}"#,
        r#"{"timestamp":30,"method":"session/update","params":{"sessionId":"s","update":{"sessionUpdate":"user_message_chunk","content":{"type":"text","text":"replacement"}}}}"#,
    ]
    .join("\n");
    let jsonl = [
        line("kept", "a", true, 11),
        line("dead", "b", true, 21),
        line("after", "c", true, 30),
    ]
    .join("\n");
    let entries = load_successful_btw_from_str(&jsonl, parse);
    let got = filter_btw_surviving_rewinds(entries, &raw, windows_of);
    let qs: Vec<_> = got.iter().map(|e| e.question.as_str()).collect();
    assert_eq!(qs, ["kept", "after"]);
}

#[test]
fn restored_asides_come_from_history_and_log() {
    let raw = [
        r#"{"timestamp":20,"params":{"update":{"sessionUpdate":"user_message_chunk"}}}"#,
        "   ",
        r#"{"timestamp":25,"params":{"update":{"sessionUpdate":"rewind_marker","target_prompt_index":0}}}"#,
    ]
    .join("\r\n");
    let history = [
        line("after", "c", true, 26),
        line("edge", "b", true, 25),
        line("before", "a", true, 19),
    ]
    .join("\n");
    let got = load_btw_entries_for_replay(&history, &raw, parse, windows_of);
    assert_eq!(questions(&got), ["before", "after"]);
}

#[test]
fn lines_are_handed_over_without_white_space_and_blank_ones_are_not() {
    let seen = std::cell::RefCell::new(Vec::new());
    let history = "\n  one \r\n\t\u{3000}\n\u{a0}two\rthree\u{85}\n\nfour\r";
    let got = load_successful_btw_from_str(history, |record: &str| {
        seen.borrow_mut().push(record.to_string());
        None
    });
    assert!(got.is_empty());
    assert_eq!(*seen.borrow(), ["one", "two\rthree", "four"]);
}

#[test]
fn unreadable_records_are_passed_over() {
    let history = format!("not json\n{}\n{{}}", line("q", "a", true, 1));
    let got = load_successful_btw_from_str(&history, parse);
    assert_eq!(questions(&got), ["q"]);
}

#[test]
fn white_space_is_no_question_and_no_answer() {
    let mut blank_question = entry(" \u{2003}", 1);
    blank_question.answer = "a".to_string();
    let mut blank_answer = entry("q", 2);
    blank_answer.answer = "\t\n".to_string();
    let got = successful_entries(vec![
        Some(blank_question),
        None,
        Some(blank_answer),
        Some(entry("kept", 3)),
    ]);
    assert_eq!(questions(&got), ["kept"]);
}

#[test]
fn sorting_is_stable_and_loses_nothing() {
    let mut late = entry("late", 7);
    late.asked_at = UtcInstant::new(7, 5).unwrap();
    let sorted = sort_by_asked_at(vec![
        late,
        entry("first of seven", 7),
        entry("three", 3),
        entry("second of seven", 7),
        entry("before the epoch", -4),
    ]);
    assert_eq!(
        questions(&sorted),
        [
            "before the epoch",
            "three",
            "first of seven",
            "second of seven",
            "late"
        ]
    );
}

#[test]
fn windows_are_closed_ranges() {
    let entries = vec![
        entry("9", 9),
        entry("10", 10),
        entry("12", 12),
        entry("13", 13),
        entry("20", 20),
    ];
    let kept = entries_outside(entries, &vec![(10, 12), (20, 20), (14, 13)]);
    assert_eq!(questions(&kept), ["9", "13"]);
}

#[test]
fn without_windows_all_are_left() {
    let kept = entries_outside(vec![entry("1", 1), entry("2", 2)], &Vec::new());
    assert_eq!(questions(&kept), ["1", "2"]);
}

#[test]
fn emission_stops_at_the_first_aside_that_is_not_due() {
    let mut queue = BtwQueue::new(vec![entry("1", 1), entry("9", 9), entry("2", 2)]);
    assert_eq!(questions(&queue.emit_btw_due(Some(5), false)), ["1"]);
    assert!(queue.emit_btw_due(None, false).is_empty());
    assert_eq!(queue.next_due(Some(9), false).unwrap().question, "9");
    assert_eq!(questions(&queue.emit_btw_due(None, true)), ["2"]);
    assert!(queue.next_due(None, true).is_none());
}
