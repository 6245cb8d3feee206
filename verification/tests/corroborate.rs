use field_monitor::corroborate::{
    corro_row, get_field, no_api_reference, parse_json, query_url, reference_from_bytes,
    reference_from_reply, run, window_start,
    CorroRow, JsonValue, Reference,
};
use field_monitor::model::Target;

fn s(x: &str) -> String {
    String::from(x)
}

fn obj(entries: Vec<(&str, JsonValue)>) -> JsonValue {
    JsonValue::Object(entries.into_iter().map(|(k, v)| (s(k), v)).collect())
}

fn target(name: &str, url: &str) -> Target {
    Target { name: s(name), host: s("h"), url: s(url), ip: s("") }
}

fn measurement(anomaly: bool, bt: &str, when: &str) -> JsonValue {
    obj(vec![
        ("anomaly", JsonValue::Bool(anomaly)),
        ("scores", obj(vec![("analysis", obj(vec![("blocking_type", JsonValue::Str(s(bt)))]))])),
        ("measurement_start_time", JsonValue::Str(s(when))),
    ])
}

#[test]
fn reference_reads_last_result() {
    let doc = obj(vec![(
        "results",
        JsonValue::Array(vec![
            measurement(false, "", "2026-07-01T00:00:00Z"),
            measurement(true, "dns", "2026-07-02T00:00:00Z"),
        ]),
    )]);
    let r = reference_from_reply(&doc).expect("has results");
    assert!(r.anomaly);
    assert_eq!(r.blocking_type, "dns");
    assert_eq!(r.last_measurement, "2026-07-02T00:00:00Z");
    assert_eq!(r.count, 2);
}

#[test]
fn reference_defaults_and_failures() {
    let empty = obj(vec![("results", JsonValue::Array(Vec::new()))]);
    let r = reference_from_reply(&empty).expect("empty results still answer");
    assert!(!r.anomaly);
    assert_eq!(r.count, 0);
    let sparse = obj(vec![("results", JsonValue::Array(vec![obj(vec![("anomaly", JsonValue::Str(s("yes")))])]))]);
    let r = reference_from_reply(&sparse).expect("answers");
    assert!(!r.anomaly);
    assert_eq!(r.blocking_type, "");
    assert_eq!(r.last_measurement, "");
    assert_eq!(r.count, 1);
    assert!(reference_from_reply(&obj(vec![("results", JsonValue::Null)])).is_none());
    assert!(reference_from_reply(&JsonValue::Array(Vec::new())).is_none());
    assert!(reference_from_reply(&obj(vec![])).is_none());
}

#[test]
fn get_field_on_objects_only() {
    let doc = obj(vec![("a", JsonValue::Number(s("1"))), ("b", JsonValue::Bool(true))]);
    assert!(matches!(get_field(&doc, "b"), Some(JsonValue::Bool(true))));
    assert!(get_field(&doc, "c").is_none());
    assert!(get_field(&JsonValue::Null, "a").is_none());
}

#[test]
fn rows_for_answers_and_failures() {
    let t = target("gh", "https://github.com");
    let r = Reference { anomaly: true, blocking_type: s("tcp_ip"), last_measurement: s("t"), count: 3 };
    let row: CorroRow = corro_row(&t, Some(&r));
    assert_eq!(row.ref_anomaly, "True");
    assert_eq!(row.blocking_type, "tcp_ip");
    assert_eq!(row.probe_count, 3);
    assert_eq!(row.local_https, "-");
    let row = corro_row(&t, None);
    assert_eq!(row.ref_anomaly, "no-data");
    assert_eq!(row.probe_count, 0);
    let na = no_api_reference();
    let row = corro_row(&t, Some(&na));
    assert_eq!(row.ref_anomaly, "False");
    assert_eq!(row.blocking_type, "no-api-url");
}

#[test]
fn run_skips_address_only_and_refused_targets() {
    let targets = vec![target("a", "https://a.example"), target("ip", ""), target("a,b", "https://x"), target("c", "https://c")];
    let ok = Reference { anomaly: false, blocking_type: s(""), last_measurement: s(""), count: 0 };
    let replies = vec![Some(Some(ok)), Some(None), Some(None), Some(None)];
    let rows = run(&targets, &[false, false, false, false], &replies);
    assert_eq!(rows.len(), 2);
    assert_eq!(rows[0].target, "a");
    assert_eq!(rows[0].ref_anomaly, "False");
    assert_eq!(rows[1].target, "c");
    assert_eq!(rows[1].ref_anomaly, "no-data");
}

#[test]
fn query_is_percent_encoded() {
    let u = query_url("https://api.example/m", "RU", "https://a.b/?x=1&y=#z ü", "2026-06-24T00:00:00Z");
    assert_eq!(
        u,
        "https://api.example/m?country_code=RU&test_name=web_connectivity&input=https%3A%2F%2Fa.b%2F%3Fx%3D1%26y%3D%23z%20%C3%BC&limit=10&order_by=measurement_start_time&since=2026-06-24T00:00:00Z"
    );
    assert_eq!(window_start(2592000 + 5), 5);
    assert_eq!(window_start(10), 0);
}

#[test]
fn reply_bytes_are_parsed_and_read() {
    let body = br#"{"metadata":{"count":2},"results":[
        {"anomaly":false,"measurement_start_time":"2026-07-01T00:00:00Z"},
        {"anomaly":true,"scores":{"analysis":{"blocking_type":"tcp_ip"}},
         "measurement_start_time":"2026-07-02T10:00:00Z"}]}"#;
    let r = reference_from_bytes(body).expect("a JSON reply with results");
    assert!(r.anomaly);
    assert_eq!(r.blocking_type, "tcp_ip");
    assert_eq!(r.last_measurement, "2026-07-02T10:00:00Z");
    assert_eq!(r.count, 2);
}

#[test]
fn reply_bytes_that_are_not_json_give_nothing() {
    assert!(reference_from_bytes(b"").is_none());
    assert!(reference_from_bytes(b"<html>502 Bad Gateway</html>").is_none());
    assert!(reference_from_bytes(br#"{"results": [}"#).is_none());
    // JSON without a results array is read as no reference too.
    assert!(reference_from_bytes(br#"{"error":"rate limited"}"#).is_none());
}

#[test]
fn parse_json_models_every_kind_of_value() {
    let doc = parse_json(br#"{"a":null,"b":true,"c":12.5,"d":"x","e":[1,"y"]}"#).expect("valid JSON");
    assert!(matches!(get_field(&doc, "a"), Some(JsonValue::Null)));
    assert!(matches!(get_field(&doc, "b"), Some(JsonValue::Bool(true))));
    match get_field(&doc, "c") {
        Some(JsonValue::Number(n)) => assert_eq!(n, "12.5"),
        _ => panic!("c is a number"),
    }
    match get_field(&doc, "d") {
        Some(JsonValue::Str(v)) => assert_eq!(v, "x"),
        _ => panic!("d is a string"),
    }
    match get_field(&doc, "e") {
        Some(JsonValue::Array(items)) => assert_eq!(items.len(), 2),
        _ => panic!("e is an array"),
    }
    assert!(parse_json(b"not json").is_none());
}
