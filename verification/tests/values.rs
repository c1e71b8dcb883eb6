//! JSON values, instants and lines.

use chrono::{DateTime, Utc};
use session_replay::json::{Json, JsonObject};
use session_replay::text::{is_blank, non_blank_lines};
use session_replay::time::{UtcInstant, FIRST_SECOND, LAST_SECOND};

#[test]
fn json_of_every_kind_is_read_and_written() {
    let text = r#" {"z":[null,true,-1,2.5,"s\n"], "a":{"b":{}} } "#;
    assert_eq!(
        Json::parse(text).unwrap().render().unwrap(),
        r#"{"a":{"b":{}},"z":[null,true,-1,2.5,"s\n"]}"#
    );
    assert!(Json::parse("{\"a\":}").is_none());
    assert!(Json::parse("").is_none());
}

#[test]
fn json_converts_both_ways() {
    let value: serde_json::Value = serde_json::from_str(r#"{"a":[1,"x",{"b":null}]}"#).unwrap();
    assert_eq!(Json::from_value(value.clone()).into_value(), value);
}

#[test]
fn a_copy_says_the_same() {
    let text = r#"{"a":[1.25,"x",{"b":[null,false]}]}"#;
    let json = Json::parse(text).unwrap();
    let copy = json.copy();
    assert_eq!(copy.render().unwrap(), text);
    assert_eq!(json.render().unwrap(), text);
}

#[test]
fn the_last_value_of_a_key_counts() {
    let mut object = JsonObject {
        fields: vec![
            ("k".to_string(), Json::Bool(false)),
            ("l".to_string(), Json::Null),
            ("k".to_string(), Json::Bool(true)),
        ],
    };
    assert!(matches!(object.get("k"), Some(Json::Bool(true))));
    assert!(object.get("m").is_none());
    object.set("k", Json::Text("new".to_string()));
    object.set("m", Json::Array(vec![]));
    assert_eq!(
        Json::Object(object).render().unwrap(),
        r#"{"k":"new","l":null,"m":[]}"#
    );
}

#[test]
fn the_last_of_repeated_keys_is_written() {
    let repeated = JsonObject {
        fields: vec![
            ("k".to_string(), Json::Bool(false)),
            ("a".to_string(), Json::Null),
            ("k".to_string(), Json::Bool(true)),
        ],
    };
    assert_eq!(
        Json::Object(repeated).render().unwrap(),
        r#"{"a":null,"k":true}"#
    );
}

#[test]
fn instants_are_those_of_the_calendar() {
    assert_eq!(FIRST_SECOND, DateTime::<Utc>::MIN_UTC.timestamp());
    assert_eq!(LAST_SECOND, DateTime::<Utc>::MAX_UTC.timestamp());
    for (secs, nanos) in [
        (0, 0),
        (-1, 999_999_999),
        (FIRST_SECOND, 0),
        (FIRST_SECOND - 1, 0),
        (LAST_SECOND, 999_999_999),
        (LAST_SECOND, 1_999_999_999),
        (LAST_SECOND + 1, 0),
        (59, 1_500_000_000),
        (60, 1_000_000_000),
        (-1, 1_000_000_000),
        (-2, 1_000_000_000),
        (59, 2_000_000_000),
        (i64::MIN, 0),
        (i64::MAX, 0),
    ] {
        let chrono = DateTime::from_timestamp(secs, nanos);
        let instant = UtcInstant::new(secs, nanos);
        assert_eq!(instant.is_some(), chrono.is_some(), "{secs} {nanos}");
        if let (Some(instant), Some(chrono)) = (instant, chrono) {
            assert_eq!(instant.to_rfc3339(), chrono.to_rfc3339());
            assert_eq!(instant.timestamp(), chrono.timestamp());
            assert_eq!(
                instant.timestamp_subsec_nanos(),
                chrono.timestamp_subsec_nanos()
            );
        }
    }
    assert_eq!(
        UtcInstant::new(1_431_648_000, 250_000_000).unwrap().to_rfc3339(),
        "2015-05-15T00:00:00.250+00:00"
    );
}

#[test]
fn instants_are_ordered_as_by_chrono() {
    let points = [(-5, 1), (-5, 0), (7, 3), (7, 999), (59, 1_000_000_001), (60, 0)];
    for a in points {
        for b in points {
            let later = DateTime::from_timestamp(a.0, a.1) > DateTime::from_timestamp(b.0, b.1);
            let a = UtcInstant::new(a.0, a.1).unwrap();
            let b = UtcInstant::new(b.0, b.1).unwrap();
            assert_eq!(a.is_after(&b), later);
        }
    }
}

#[test]
fn white_space_is_that_of_unicode() {
    for c in (0..=0x10_ffffu32).filter_map(char::from_u32) {
        assert_eq!(is_blank(&c.to_string()), c.is_whitespace());
    }
    let listed: Vec<u32> = (0..=0x10_ffffu32)
        .filter_map(char::from_u32)
        .filter(|c| c.is_whitespace())
        .map(u32::from)
        .collect();
    let mut expected: Vec<u32> = (0x9..=0xd).collect();
    expected.extend([0x20, 0x85, 0xa0, 0x1680]);
    expected.extend(0x2000..=0x200a);
    expected.extend([0x2028, 0x2029, 0x202f, 0x205f, 0x3000]);
    assert_eq!(listed, expected);
    assert!(is_blank(""));
    assert!(!is_blank(" a "));
}

#[test]
fn lines_end_in_line_feeds() {
    assert_eq!(
        non_blank_lines("a\r\n\n b \n \r\nc\rd\n\r\r\ne\r"),
        ["a", " b ", "c\rd", "e\r"]
    );
    assert!(non_blank_lines("").is_empty());
}
