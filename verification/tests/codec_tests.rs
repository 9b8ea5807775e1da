use spooler::Task;
use spooler::TaskSettings;
use spooler::dates::format_rfc3339;
use spooler::dates::parse_rfc3339;
use spooler::text::chars_to_string;
use spooler::text::str_to_chars;

fn eta_text(ms: i64) -> String {
    chars_to_string(&format_rfc3339(ms))
}

fn parse_eta(text: &str) -> Option<i64> {
    parse_rfc3339(&str_to_chars(text))
}

#[test]
fn parses_minimal_task() {
    let t = Task::from_str("{\"queue\":0,\"id\":\"a\",\"task_type\":4}").unwrap();
    assert_eq!(t.queue, 0);
    assert_eq!(t.id, "a");
    assert_eq!(t.task_type, 4);
    assert!(t.eta.is_none());
    assert!(t.payload.is_none());
    assert!(t.settings.is_none());
}

#[test]
fn parses_full_task() {
    let line = "{\"queue\":2,\"id\":\"job-7\",\"eta\":\"2022-07-30T09:44:09.150Z\",\"task_type\":1,\"payload\":\"hello\",\"settings\":{\"repeat_interval\":60,\"retries\":-1,\"url\":\"http://example.test/hook\",\"headers\":\"{}\",\"method\":\"POST\",\"function_name\":\"run\"}}";
    let t = Task::from_str(line).unwrap();
    assert_eq!(t.queue, 2);
    assert_eq!(t.id, "job-7");
    assert_eq!(t.eta, parse_eta("2022-07-30T09:44:09.150Z"));
    assert_eq!(t.task_type, 1);
    assert_eq!(t.payload.as_deref(), Some("hello"));
    let s = t.settings.unwrap();
    assert_eq!(s.repeat_interval, Some(60));
    assert_eq!(s.retries, Some(-1));
    assert_eq!(s.url.as_deref(), Some("http://example.test/hook"));
    assert_eq!(s.method.as_deref(), Some("POST"));
    assert_eq!(s.function_name.as_deref(), Some("run"));
}

#[test]
fn rejects_malformed_json() {
    assert!(Task::from_str("").is_none());
    assert!(Task::from_str("not json").is_none());
    assert!(Task::from_str("{\"queue\":0,\"id\":\"a\"").is_none());
    assert!(Task::from_str("[1,2,3]").is_none());
}

#[test]
fn rejects_missing_required_fields() {
    assert!(Task::from_str("{\"id\":\"a\",\"task_type\":4}").is_none());
    assert!(Task::from_str("{\"queue\":0,\"task_type\":4}").is_none());
    assert!(Task::from_str("{\"queue\":0,\"id\":\"a\"}").is_none());
    assert!(Task::from_str("{}").is_none());
}

#[test]
fn rejects_bad_eta() {
    assert!(Task::from_str("{\"queue\":0,\"id\":\"a\",\"task_type\":4,\"eta\":\"yesterday\"}").is_none());
    assert!(Task::from_str("{\"queue\":0,\"id\":\"a\",\"task_type\":4,\"eta\":\"2022-13-01T00:00:00Z\"}").is_none());
    assert!(Task::from_str("{\"queue\":0,\"id\":\"a\",\"task_type\":4,\"eta\":\"2023-02-29T00:00:00Z\"}").is_none());
    assert!(Task::from_str("{\"queue\":0,\"id\":\"a\",\"task_type\":4,\"eta\":17}").is_none());
}

#[test]
fn rejects_duplicate_fields() {
    assert!(Task::from_str("{\"queue\":0,\"queue\":1,\"id\":\"a\",\"task_type\":4}").is_none());
}

#[test]
fn rejects_out_of_range_numbers() {
    assert!(Task::from_str("{\"queue\":99999999999999999999999,\"id\":\"a\",\"task_type\":4}").is_none());
    assert!(Task::from_str("{\"queue\":0,\"id\":\"a\",\"task_type\":99999999999}").is_none());
    assert!(
        Task::from_str(
            "{\"queue\":0,\"id\":\"a\",\"task_type\":4,\"settings\":{\"repeat_interval\":4294967296}}",
        )
        .is_none()
    );
}

#[test]
fn ignores_unknown_fields() {
    let line = "{\"queue\":0,\"weight\":12,\"specific_settings\":{\"x\":[1,\"a\",{}]},\"id\":\"a\",\"content_type\":null,\"task_type\":4}";
    let t = Task::from_str(line).unwrap();
    assert_eq!(t.id, "a");
}

#[test]
fn accepts_null_for_optional_fields() {
    let t = Task::from_str(
        "{\"queue\":0,\"id\":\"a\",\"task_type\":4,\"eta\":null,\"payload\":null,\"settings\":null}",
    )
    .unwrap();
    assert!(t.eta.is_none());
    assert!(t.payload.is_none());
    assert!(t.settings.is_none());
}

#[test]
fn accepts_whitespace_between_tokens() {
    let t = Task::from_str(" { \"queue\" : 0 , \"id\" : \"a\" , \"task_type\" : 4 } ").unwrap();
    assert_eq!(t.queue, 0);
}

#[test]
fn decodes_string_escapes() {
    let t = Task::from_str(
        "{\"queue\":0,\"id\":\"a\\\"b\\\\c\\n\\t\\u0041\",\"task_type\":4}",
    )
    .unwrap();
    assert_eq!(t.id, "a\"b\\c\n\tA");
}

#[test]
fn round_trips_through_json() {
    let t = Task {
        queue: 3,
        id: String::from("line\nbreak \"quoted\""),
        eta: Some(1_659_174_249_150),
        task_type: 1,
        payload: Some(String::from("{\"inner\":true}")),
        settings: Some(TaskSettings {
            repeat_interval: Some(60),
            retries: Some(5),
            url: Some(String::from("http://example.test/x")),
            headers: Some(String::from("{\"a\":\"b\"}")),
            method: Some(String::from("PUT")),
            function_name: None,
        }),
    };
    let text = t.to_json();
    let u = Task::from_str(text.as_str()).unwrap();
    assert_eq!(u.queue, t.queue);
    assert_eq!(u.id, t.id);
    assert_eq!(u.eta, t.eta);
    assert_eq!(u.task_type, t.task_type);
    assert_eq!(u.payload, t.payload);
    let a = u.settings.unwrap();
    let b = t.settings.unwrap();
    assert_eq!(a.repeat_interval, b.repeat_interval);
    assert_eq!(a.retries, b.retries);
    assert_eq!(a.url, b.url);
    assert_eq!(a.headers, b.headers);
    assert_eq!(a.method, b.method);
    assert_eq!(a.function_name, b.function_name);
}

#[test]
fn round_trips_minimal_task() {
    let t = Task {
        queue: 0,
        id: String::new(),
        eta: None,
        task_type: -7,
        payload: None,
        settings: None,
    };
    let u = Task::from_str(t.to_json().as_str()).unwrap();
    assert_eq!(u.queue, 0);
    assert_eq!(u.id, "");
    assert_eq!(u.eta, None);
    assert_eq!(u.task_type, -7);
    assert!(u.payload.is_none());
    assert!(u.settings.is_none());
}

#[test]
fn formats_epoch_instants() {
    assert_eq!(eta_text(0), "1970-01-01T00:00:00.000Z");
    assert_eq!(eta_text(1_659_174_249_150), "2022-07-30T09:44:09.150Z");
    assert_eq!(eta_text(253_402_300_799_999), "9999-12-31T23:59:59.999Z");
}

#[test]
fn parses_rfc3339_variants() {
    assert_eq!(parse_eta("1970-01-01T00:00:00Z"), Some(0));
    assert_eq!(parse_eta("1970-01-01t00:00:00z"), Some(0));
    assert_eq!(parse_eta("1970-01-01 00:00:00Z"), Some(0));
    assert_eq!(parse_eta("1970-01-01T00:00:00.5Z"), Some(500));
    assert_eq!(parse_eta("1970-01-01T02:00:00+02:00"), Some(0));
    assert_eq!(parse_eta("2024-02-29T00:00:00Z"), parse_eta("2024-02-28T00:00:00Z").map(|t| t + 86_400_000));
}

#[test]
fn rejects_rfc3339_outside_range() {
    assert!(parse_eta("1969-12-31T23:59:59Z").is_none());
    assert!(parse_eta("1969-12-31T23:00:00-01:00").is_none());
    assert!(parse_eta("1970-01-01T00:00:60Z").is_none());
    assert!(parse_eta("1970-01-01T24:00:00Z").is_none());
    assert!(parse_eta("1970-01-01T00:00:00").is_none());
    assert!(parse_eta("1969-12-31T23:00:00+02:00").is_none());
}

#[test]
fn eta_survives_the_wire() {
    for ms in [0i64, 999, 1_000, 86_399_999, 951_827_696_789, 253_402_300_799_999] {
        assert_eq!(parse_eta(eta_text(ms).as_str()), Some(ms));
    }
}
